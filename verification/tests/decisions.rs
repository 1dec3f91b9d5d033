use amiss::correlate::{
    ambiguous, candidate_comparison, exact_comparison, isolated, pair_reason,
    unique_path_pairs, Impact, Outcome, Reason, Resolution, SourceChange, TargetChange,
};
use amiss::discovery::{
    blob_verdict, document_outcome, entry_gate, side_status, Defect, DefectKind, EntryGate, GitMode, SideStatus, SideSteps,
    UnsupportedKind,
};
use amiss::document::Adapter;
use amiss::evaluate::{
    comparison_finding, document_findings, invalid_attribution, path_respelling, reference_attribution,
    resolution_kinds, Attribution, ComparisonFindingKind, DocumentFinding, DocumentFindingKind, DocumentSide,
    ReferenceFindingKind,
};
use amiss::evaluate::relocation::relocation_respelling;
use amiss::feedback::{attributed, classify_action, Action, LocationSide};
use amiss::policy::{include_weakening, DocumentInclude, IncludeKind, Includes};
use amiss::projection::{code_verdict, CodeDrift, ProjectionKind};

fn scanned(mdx: u64, html: u64) -> DocumentSide {
    DocumentSide::Scanned { mdx_regions: mdx, html_regions: html, extracted_references: 0 }
}

fn kinds(path: &[u8], base: Option<DocumentSide>, candidate: Option<DocumentSide>, unlinked: bool) -> Vec<DocumentFindingKind> {
    let found = document_findings(path, base, candidate, unlinked);
    for f in &found {
        assert_eq!(f.attribution, Attribution::NotApplicable);
        assert_eq!(f.path, path.to_vec());
    }
    found.iter().map(|f| f.kind).collect()
}

#[test]
fn a_document_path_raises_what_its_sides_show() {
    let p = b"docs/a.md";
    assert_eq!(kinds(p, Some(scanned(0, 0)), None, true), vec![DocumentFindingKind::DocumentRemoved]);
    assert_eq!(kinds(p, None, Some(DocumentSide::Unsupported), true), vec![DocumentFindingKind::UnsupportedDocumentFormat]);
    assert_eq!(kinds(p, None, Some(DocumentSide::ExcludedBuiltIn), true), vec![]);
    assert_eq!(
        kinds(p, Some(scanned(0, 0)), Some(scanned(2, 1)), true),
        vec![DocumentFindingKind::OpaqueMdxRegion, DocumentFindingKind::OpaqueHtmlRegion, DocumentFindingKind::UnlinkedDocument]
    );
    assert_eq!(kinds(p, None, Some(scanned(0, 3)), false), vec![DocumentFindingKind::OpaqueHtmlRegion]);
    assert_eq!(kinds(p, None, None, true), vec![]);
}

#[test]
fn a_removal_is_located_on_the_base_side_and_the_rest_on_the_candidate() {
    let removed = document_findings(b"docs/gone.md", Some(scanned(0, 0)), None, false);
    assert_eq!(
        removed,
        vec![DocumentFinding {
            kind: DocumentFindingKind::DocumentRemoved,
            attribution: Attribution::NotApplicable,
            side: LocationSide::Base,
            path: b"docs/gone.md".to_vec(),
        }]
    );
    let opaque = document_findings(b"docs/x.mdx", None, Some(scanned(1, 0)), false);
    assert_eq!(opaque.len(), 1);
    assert_eq!(opaque[0].side, LocationSide::Candidate);
}

#[test]
fn attribution_follows_fact_presence_and_the_action_follows_attribution() {
    assert_eq!(reference_attribution(false, true, false), Attribution::Introduced);
    assert_eq!(reference_attribution(true, false, true), Attribution::Resolved);
    assert_eq!(reference_attribution(true, true, true), Attribution::PreExisting);
    assert_eq!(reference_attribution(true, true, false), Attribution::Unknown);
    assert_eq!(reference_attribution(false, false, true), Attribution::NotApplicable);
    assert_eq!(attributed(Attribution::Introduced, LocationSide::Base), Some(Action::Fix));
    assert_eq!(attributed(Attribution::PreExisting, LocationSide::Candidate), Some(Action::Existing));
    assert_eq!(attributed(Attribution::Unknown, LocationSide::Candidate), Some(Action::Check));
    assert_eq!(attributed(Attribution::Resolved, LocationSide::Candidate), None);
    assert_eq!(attributed(Attribution::NotApplicable, LocationSide::Control), Some(Action::Fix));
    assert_eq!(attributed(Attribution::NotApplicable, LocationSide::Base), None);
    assert_eq!(classify_action(true, Attribution::Resolved, LocationSide::Base), Some(Action::Check));
    assert_eq!(classify_action(false, Attribution::Introduced, LocationSide::Candidate), Some(Action::Fix));
}

#[test]
fn discovery_gates_an_entry_before_and_after_reading_it() {
    assert_eq!(entry_gate(b"node_modules/x.md", false, GitMode::RegularFile), EntryGate::ExcludedBuiltIn);
    assert_eq!(entry_gate(b"node_modules/x.md", true, GitMode::RegularFile), EntryGate::Read);
    assert_eq!(entry_gate(b"docs/x.md", false, GitMode::Symlink), EntryGate::Unsupported(UnsupportedKind::Symlink));
    assert_eq!(entry_gate(b"docs/x.md", false, GitMode::Gitlink), EntryGate::Unsupported(UnsupportedKind::Gitlink));
    assert_eq!(entry_gate(b"docs/x.md", false, GitMode::Tree), EntryGate::NotABlob);
    assert_eq!(entry_gate(b"docs/x.md", false, GitMode::ExecutableFile), EntryGate::Read);
    let pointer = format!(
        "version https://git-lfs.github.com/spec/v1\noid sha256:{}\nsize 3\n",
        "a".repeat(64)
    );
    assert_eq!(blob_verdict(pointer.as_bytes(), Some(Adapter::Markdown)), Err(UnsupportedKind::LfsPointer));
    assert_eq!(blob_verdict(b"# Title\n", None), Err(UnsupportedKind::Format));
    assert_eq!(blob_verdict(b"# Title\n", Some(Adapter::Mdx)), Ok(Adapter::Mdx));
}

fn policy_entry(kind: IncludeKind, suffix: Option<&str>, adapter: Option<Adapter>) -> DocumentInclude {
    DocumentInclude { path: b"docs".to_vec(), kind, suffix: suffix.map(str::to_owned), adapter }
}

#[test]
fn a_weakened_include_names_how_it_was_weakened() {
    let tree = policy_entry(IncludeKind::Tree, None, Some(Adapter::Markdown));
    assert_eq!(include_weakening(&tree, None), Some("policy/include-tree-removed"));
    let document = policy_entry(IncludeKind::Document, None, None);
    assert_eq!(include_weakening(&document, None), Some("policy/include-document-removed"));
    let suffixed = policy_entry(IncludeKind::Tree, Some(".txt"), None);
    assert_eq!(include_weakening(&suffixed, None), Some("policy/include-suffix-selector-removed"));
    assert_eq!(include_weakening(&suffixed, Some(&policy_entry(IncludeKind::Tree, Some(".md"), None))), Some("policy/include-suffix-removed"));
    assert_eq!(include_weakening(&tree, Some(&policy_entry(IncludeKind::Tree, Some(".md"), Some(Adapter::Markdown)))), Some("policy/include-tree-narrowed"));
    assert_eq!(include_weakening(&tree, Some(&policy_entry(IncludeKind::Tree, None, None))), Some("policy/include-binding-removed"));
    assert_eq!(include_weakening(&tree, Some(&policy_entry(IncludeKind::Tree, None, Some(Adapter::Rst)))), Some("policy/include-binding-removed"));
    assert_eq!(include_weakening(&tree, Some(&policy_entry(IncludeKind::Tree, None, Some(Adapter::Markdown)))), None);
    assert_eq!(include_weakening(&document, Some(&policy_entry(IncludeKind::Document, None, Some(Adapter::Rst)))), None);
}

fn resolved(digest: u8) -> Resolution {
    Resolution::Resolved(Some(vec![digest]))
}

#[test]
fn the_derivation_table_reads_both_resolutions() {
    assert_eq!(amiss::correlate::derive(&resolved(1), &resolved(1), SourceChange::Equal), (TargetChange::Equal, Impact::Unaffected));
    assert_eq!(amiss::correlate::derive(&resolved(1), &resolved(1), SourceChange::Changed), (TargetChange::Equal, Impact::SubjectChanged));
    assert_eq!(amiss::correlate::derive(&resolved(1), &resolved(2), SourceChange::Equal), (TargetChange::Changed, Impact::DependencyChangedSubjectUnchanged));
    assert_eq!(amiss::correlate::derive(&resolved(1), &resolved(2), SourceChange::Changed), (TargetChange::Changed, Impact::DependencyAndSubjectCochanged));
    assert_eq!(amiss::correlate::derive(&Resolution::Resolved(None), &resolved(2), SourceChange::Equal), (TargetChange::NotComparable, Impact::NotApplicable));
    assert_eq!(amiss::correlate::derive(&Resolution::Missing(vec![7]), &resolved(2), SourceChange::Equal), (TargetChange::NewlyResolved, Impact::ReferenceResolved));
    assert_eq!(amiss::correlate::derive(&resolved(2), &Resolution::TypeMismatch(vec![1]), SourceChange::Equal), (TargetChange::BecameMissing, Impact::NotApplicable));
    assert_eq!(amiss::correlate::derive(&Resolution::Missing(vec![7]), &Resolution::Missing(vec![7]), SourceChange::Equal), (TargetChange::Equal, Impact::Unaffected));
    assert_eq!(amiss::correlate::derive(&Resolution::Missing(vec![7]), &Resolution::Missing(vec![8]), SourceChange::Equal), (TargetChange::NotComparable, Impact::NotApplicable));
    assert_eq!(amiss::correlate::derive(&Resolution::DeclaredUntracked(vec![1]), &Resolution::Missing(vec![1]), SourceChange::Equal), (TargetChange::NotComparable, Impact::NotApplicable));
    assert_eq!(amiss::correlate::derive(&Resolution::External, &Resolution::External, SourceChange::Equal), (TargetChange::NotComparable, Impact::NotApplicable));
}

#[test]
fn comparison_rows_carry_their_labels() {
    assert_eq!(pair_reason(true, false), (Reason::ExactDocumentRenameUnchangedProjection, SourceChange::Equal));
    assert_eq!(pair_reason(false, true), (Reason::SameIntentUnchangedProjection, SourceChange::Equal));
    assert_eq!(pair_reason(false, false), (Reason::SameIntentSourceChanged, SourceChange::Changed));
    let removed = isolated(true);
    assert_eq!((removed.outcome, removed.reason, removed.impact), (Outcome::Unmatched, Reason::RemovedObservation, Impact::RemovedObservation));
    let added = isolated(false);
    assert_eq!((added.source_change, added.impact), (SourceChange::Added, Impact::NewObservation));
    assert_eq!(ambiguous().impact, Impact::ObservationCorrelationAmbiguous);
    let exact = exact_comparison(&resolved(1), &resolved(2));
    assert_eq!((exact.outcome, exact.target_change, exact.impact), (Outcome::Exact, TargetChange::Changed, Impact::DependencyChangedSubjectUnchanged));
    let paired = candidate_comparison(&resolved(1), &resolved(2), false, false);
    assert_eq!((paired.reason, paired.impact), (Reason::SameIntentSourceChanged, Impact::DependencyAndSubjectCochanged));
}

fn entries(rows: &[(&str, &str)]) -> Vec<(Vec<u8>, Vec<u8>)> {
    rows.iter().map(|(path, id)| (path.as_bytes().to_vec(), id.as_bytes().to_vec())).collect()
}

#[test]
fn renames_pair_only_unique_identities() {
    let base = entries(&[("a.md", "1"), ("b.md", "2"), ("c.md", "3"), ("d.md", "3"), ("kept.md", "9")]);
    let candidate = entries(&[("x.md", "1"), ("y.md", "2"), ("z.md", "2"), ("w.md", "3"), ("kept.md", "9"), ("v.md", "9")]);
    let pairs = unique_path_pairs(&base, &candidate);
    assert_eq!(pairs, vec![(b"a.md".to_vec(), b"x.md".to_vec())]);
    assert!(unique_path_pairs(&[], &candidate).is_empty());
}

fn entry(path: &str, kind: IncludeKind, suffix: Option<&str>, adapter: Option<Adapter>) -> DocumentInclude {
    DocumentInclude { path: path.as_bytes().to_vec(), kind, suffix: suffix.map(str::to_owned), adapter }
}

#[test]
fn the_includes_of_both_sides_select_and_the_candidate_binds() {
    let base = vec![
        entry("vendor/keep.md", IncludeKind::Document, None, Some(Adapter::Rst)),
        entry("third_party/docs", IncludeKind::Tree, Some(".txt"), Some(Adapter::Markdown)),
    ];
    let candidate = vec![
        entry("node_modules/pkg", IncludeKind::Tree, None, Some(Adapter::Markdown)),
        entry("node_modules/pkg/deep", IncludeKind::Tree, None, Some(Adapter::Mdx)),
        entry("build/notes", IncludeKind::Tree, Some(".rst.txt"), Some(Adapter::Rst)),
    ];
    let merged = Includes::union(Some(&base), Some(&candidate));
    assert!(merged.matches(b"vendor/keep.md", 64));
    assert!(!merged.matches(b"vendor/other.md", 64));
    assert!(merged.matches(b"node_modules/pkg", 64));
    assert!(merged.matches(b"node_modules/pkg/a/b.md", 64));
    assert!(!merged.matches(b"node_modules/pkgs/a.md", 64));
    assert!(merged.matches(b"third_party/docs/a/readme.txt", 64));
    assert!(!merged.matches(b"third_party/docs/a/readme.md", 64));
    assert!(!merged.matches(b"third_party/docs/a/readme.txt", 3));
    assert!(merged.matches(b"build/notes/x.rst.txt", 64));
    // Bindings come from the candidate alone.
    assert_eq!(merged.binding(b"vendor/keep.md"), None);
    assert_eq!(merged.binding(b"node_modules/pkg/a.md"), Some(Adapter::Markdown));
    assert_eq!(merged.binding(b"node_modules/pkg/deep/a.md"), Some(Adapter::Mdx));
    assert_eq!(merged.binding(b"build/notes/x.rst.txt"), Some(Adapter::Rst));
    assert_eq!(merged.binding(b"build/notes/x.md"), None);
    let base_only = Includes::union(Some(&base), None);
    assert_eq!(base_only.binding(b"vendor/keep.md"), Some(Adapter::Rst));
    assert_eq!(base_only.binding(b"third_party/docs/x.txt"), Some(Adapter::Markdown));
    let none = Includes::union(None, None);
    assert!(!none.matches(b"a", 64));
    assert_eq!(none.binding(b"a"), None);
}

#[test]
fn code_is_attested_by_containment_or_by_equality() {
    assert_eq!(code_verdict(b"fn main", ProjectionKind::ContainsV1, b"x fn main y"), Ok(()));
    assert_eq!(code_verdict(b"", ProjectionKind::ContainsV1, b"anything"), Ok(()));
    assert_eq!(code_verdict(b"fn other", ProjectionKind::ContainsV1, b"x fn main y"), Err(CodeDrift::ContentAbsent));
    assert_eq!(code_verdict(b"abc", ProjectionKind::CodeTextV1, b"abc"), Ok(()));
    assert_eq!(code_verdict(b"abc", ProjectionKind::SortedRowsV1, b"abd"), Err(CodeDrift::ContentDiffers));
    assert_eq!(code_verdict(b"abc", ProjectionKind::DecimalCountV1, b"x abc"), Err(CodeDrift::ContentDiffers));
}

#[test]
fn a_resolution_raises_one_kind_of_finding() {
    assert_eq!(resolution_kinds(&Resolution::Missing(vec![])), (Some(ReferenceFindingKind::ExplicitTargetMissing), None));
    assert_eq!(resolution_kinds(&Resolution::TypeMismatch(vec![])), (Some(ReferenceFindingKind::ExplicitTargetTypeMismatch), None));
    assert_eq!(resolution_kinds(&Resolution::Invalid), (None, Some(ReferenceFindingKind::InvalidReference)));
    assert_eq!(resolution_kinds(&Resolution::DeclaredUntracked(vec![])), (None, Some(ReferenceFindingKind::TargetDeclaredUntracked)));
    assert_eq!(resolution_kinds(&Resolution::UnsupportedVersion), (None, Some(ReferenceFindingKind::UnsupportedVersionScope)));
    assert_eq!(resolution_kinds(&Resolution::Resolved(None)), (None, None));
    assert_eq!(resolution_kinds(&Resolution::External), (None, None));
}

#[test]
fn a_missed_path_is_respelled_from_its_nearby_path() {
    assert_eq!(
        path_respelling("guide/intro.md#part", b"docs/guide/intro.md", b"docs/guide/introduction.md"),
        Some("guide/introduction.md".to_owned())
    );
    assert_eq!(path_respelling("intro.md", b"intro.md", b"intro.rst"), Some("intro.rst".to_owned()));
    assert_eq!(path_respelling("ntro.md", b"docs/intro.md", b"docs/intro.rst"), None);
    assert_eq!(path_respelling("guide/x.md", b"docs/guide/x.md", b"other/guide/y.md"), None);
    assert_eq!(path_respelling("../../x.md", b"x.md", b"y.md"), None);
    assert_eq!(path_respelling("x.md", b"docs/x.md", b"docs/\xff.md"), None);
    assert_eq!(path_respelling("x.md", b"docs/x.md", b"docs/\xc3\xa9.md"), Some("\u{e9}.md".to_owned()));
}

#[test]
fn a_comparison_raises_its_removal_ambiguity_or_named_impact() {
    assert_eq!(comparison_finding(Outcome::Unmatched, Impact::Unaffected, false, false), None);
    assert_eq!(
        comparison_finding(Outcome::Unmatched, Impact::RemovedObservation, true, false),
        Some((ComparisonFindingKind::ExplicitReferenceRemoved, LocationSide::Base))
    );
    assert_eq!(comparison_finding(Outcome::Unmatched, Impact::NewObservation, false, true), None);
    assert_eq!(
        comparison_finding(Outcome::Ambiguous, Impact::ObservationCorrelationAmbiguous, true, true),
        Some((ComparisonFindingKind::ObservationCorrelationAmbiguous, LocationSide::Candidate))
    );
    assert_eq!(
        comparison_finding(Outcome::Exact, Impact::SubjectChanged, true, true),
        Some((ComparisonFindingKind::SubjectChanged, LocationSide::Candidate))
    );
    assert_eq!(
        comparison_finding(Outcome::Candidate, Impact::DependencyChangedSubjectUnchanged, true, true),
        Some((ComparisonFindingKind::DependencyChangedSubjectUnchanged, LocationSide::Candidate))
    );
    assert_eq!(
        comparison_finding(Outcome::Exact, Impact::DependencyAndSubjectCochanged, true, true),
        Some((ComparisonFindingKind::DependencyAndSubjectCochanged, LocationSide::Candidate))
    );
    assert_eq!(comparison_finding(Outcome::Exact, Impact::ReferenceResolved, true, true), None);
    assert_eq!(comparison_finding(Outcome::Exact, Impact::Unaffected, true, true), None);
}

#[test]
fn an_invalid_reference_is_attributed_by_its_base_counterpart() {
    assert_eq!(invalid_attribution(Outcome::Exact, true, true), Attribution::PreExisting);
    assert_eq!(invalid_attribution(Outcome::Candidate, true, false), Attribution::Introduced);
    assert_eq!(invalid_attribution(Outcome::Unmatched, true, false), Attribution::Introduced);
    assert_eq!(invalid_attribution(Outcome::Ambiguous, true, true), Attribution::Unknown);
    assert_eq!(invalid_attribution(Outcome::Exact, false, true), Attribution::Unknown);
}

#[test]
fn a_moved_file_is_respelled_relative_to_its_document() {
    assert_eq!(relocation_respelling("guide.md", "docs", "manual/guide.md"), Some("../manual/guide.md".to_owned()));
    assert_eq!(relocation_respelling("./guide.md#intro", "docs", "docs/sub/guide.md"), Some("./sub/guide.md".to_owned()));
    assert_eq!(relocation_respelling("./guide.md", "docs/a", "guide.md"), Some("../../guide.md".to_owned()));
    assert_eq!(relocation_respelling("b.md?plain=1", "", "a/b.md"), Some("a/b.md".to_owned()));
    assert_eq!(relocation_respelling("x.md", "docs//deep/", "docs/deep/y.md"), Some("y.md".to_owned()));
}

#[test]
fn only_a_plain_relative_spelling_is_respelled() {
    assert_eq!(relocation_respelling("/abs.md", "docs", "a.md"), None);
    assert_eq!(relocation_respelling("a b.md", "docs", "a.md"), None);
    assert_eq!(relocation_respelling("#only-fragment", "docs", "a.md"), None);
    assert_eq!(relocation_respelling("a.md", "docs", "c:/a.md"), None);
    assert_eq!(relocation_respelling("a%20b.md", "docs", "a.md"), None);
}

fn steps(read: Result<Vec<u8>, Defect>) -> SideSteps {
    SideSteps { admission: None, memo: false, read, charge: None, scan: None }
}

fn scoped(kind: DefectKind) -> Defect {
    Defect { kind, document_scoped: true }
}

#[test]
fn each_step_of_reading_a_side_decides_its_status() {
    let md = Some(Adapter::Markdown);
    let ok = steps(Ok(b"# Title\n".to_vec()));
    assert_eq!(side_status(b"node_modules/x.md", false, GitMode::RegularFile, md, &ok), Ok(SideStatus::ExcludedBuiltIn));
    assert_eq!(side_status(b"docs/x.md", false, GitMode::Symlink, md, &ok), Ok(SideStatus::Unsupported(UnsupportedKind::Symlink)));
    assert_eq!(side_status(b"docs/x.md", false, GitMode::Tree, md, &ok), Err(DefectKind::Git));
    assert_eq!(side_status(b"docs/x.md", false, GitMode::RegularFile, md, &ok), Ok(SideStatus::Scanned));
    assert_eq!(side_status(b"docs/x.md", false, GitMode::RegularFile, None, &ok), Ok(SideStatus::Unsupported(UnsupportedKind::Format)));
    let refused = SideSteps { admission: Some(scoped(DefectKind::ResourceLimit)), ..steps(Ok(vec![])) };
    assert_eq!(side_status(b"docs/x.md", false, GitMode::RegularFile, md, &refused), Err(DefectKind::ResourceLimit));
    let capped = steps(Err(scoped(DefectKind::ResourceLimit)));
    assert_eq!(side_status(b"docs/x.md", false, GitMode::RegularFile, md, &capped), Ok(SideStatus::Unsupported(UnsupportedKind::Ceiling)));
    let store = steps(Err(Defect { kind: DefectKind::Git, document_scoped: false }));
    assert_eq!(side_status(b"docs/x.md", false, GitMode::RegularFile, md, &store), Err(DefectKind::Git));
    let unparsable = SideSteps { scan: Some(scoped(DefectKind::DocumentUnparsable)), ..steps(Ok(b"x".to_vec())) };
    assert_eq!(side_status(b"docs/x.md", false, GitMode::RegularFile, md, &unparsable), Ok(SideStatus::Unsupported(UnsupportedKind::Unparsable)));
    let panicked = SideSteps { scan: Some(scoped(DefectKind::ParserPanic)), ..steps(Ok(b"x".to_vec())) };
    assert_eq!(side_status(b"docs/x.md", false, GitMode::RegularFile, md, &panicked), Ok(SideStatus::Failed(DefectKind::ParserPanic)));
    let replayed = SideSteps { memo: true, ..steps(Err(scoped(DefectKind::Git))) };
    assert_eq!(side_status(b"docs/x.md", false, GitMode::RegularFile, md, &replayed), Ok(SideStatus::Scanned));
    assert_eq!(document_outcome(scoped(DefectKind::DocumentInvalid)), Ok(SideStatus::Unsupported(UnsupportedKind::Undecodable)));
}
