use amiss::cache::ScanCacheRowSchema;
use amiss::claim::{ClaimCarrier, ClaimMissingReason};
use amiss::correlate::{Impact, Outcome, Reason, SourceChange, TargetChange};
use amiss::discovery::{coordinate, UnsupportedKind};
use amiss::document::{classify, excluded_by_built_in, native_adapter, Adapter, Classification};
use amiss::evaluate::DocumentSide;
use amiss::feedback::Action;
use amiss::locale::{assign, basename, keyed, LocaleSide, LocaleTreeContext, Owner};
use amiss::policy::InventoryState;
use amiss::projection::{projected_bytes, rows_match, RepositoryProjectionLimits};

#[test]
fn paths_classify_by_suffix_then_basename() {
    assert_eq!(classify(b"docs/guide.md"), Some(Classification::StructuredMarkdown));
    assert_eq!(classify(b"notes.markdown"), Some(Classification::StructuredMarkdown));
    assert_eq!(classify(b"page.mdx"), Some(Classification::StructuredMdx));
    assert_eq!(classify(b"book.adoc"), Some(Classification::StructuredAsciiDoc));
    assert_eq!(classify(b"index.rst"), Some(Classification::StructuredRst));
    assert_eq!(classify(b"a.ipynb"), Some(Classification::UnparsedMarkup));
    assert_eq!(classify(b"x/README"), Some(Classification::ExtensionlessMarkdown));
    assert_eq!(classify(b"CODE_OF_CONDUCT"), Some(Classification::ExtensionlessMarkdown));
    assert_eq!(classify(b"x/readme"), None);
    assert_eq!(classify(b"GUIDE.MD"), None);
    assert_eq!(classify(b"llms.txt"), Some(Classification::PlainAdvisory));
    assert_eq!(classify(b"a/.cursorrules"), Some(Classification::PlainAdvisory));
    assert_eq!(classify(b"src/main.rs"), None);
    assert_eq!(classify(b"\xff\xfe.md"), Some(Classification::StructuredMarkdown));
    assert_eq!(native_adapter(Classification::ExtensionlessMarkdown), Some(Adapter::Markdown));
    assert_eq!(native_adapter(Classification::StructuredRst), Some(Adapter::Rst));
    assert_eq!(native_adapter(Classification::UnparsedMarkup), None);
    assert_eq!(native_adapter(Classification::PolicyIncluded), None);
}

#[test]
fn an_excluded_tree_is_a_directory_component_byte_for_byte() {
    assert!(excluded_by_built_in(b"node_modules/pkg/README.md"));
    assert!(excluded_by_built_in(b"docs/test/x.md"));
    assert!(excluded_by_built_in(b"a/b/.next/c.md"));
    assert!(!excluded_by_built_in(b"tests"));
    assert!(!excluded_by_built_in(b"docs/tests.md"));
    assert!(!excluded_by_built_in(b"a/testing/b.md"));
    assert!(!excluded_by_built_in(b"Vendor/x.md"));
    assert!(!excluded_by_built_in(b""));
}

#[test]
fn projected_rows_count_their_bytes_and_match_line_for_line() {
    assert_eq!(projected_bytes(&[]), 0);
    assert_eq!(projected_bytes(&["a", "bc"]), 4);
    assert_eq!(projected_bytes(&["\u{e9}"]), 2);
    assert!(rows_match(&["a", "b"], "a\nb"));
    assert!(!rows_match(&["a", "b"], "a\nb\n"));
    assert!(!rows_match(&["a", "b"], "a"));
    assert!(rows_match(&[], ""));
    assert!(!rows_match(&[], "a"));
    assert!(!rows_match(&["a"], ""));
    assert!(rows_match(&[""], "\n") == false);
    assert!(rows_match(&["", ""], "\n"));
    let limits = RepositoryProjectionLimits { records: 1, bytes: 2 };
    assert_eq!(limits, RepositoryProjectionLimits { records: 1, bytes: 2 });
}

fn side(root: &str, suffix: Option<&str>) -> LocaleSide {
    LocaleSide { root: root.to_owned(), locale: "xx".to_owned(), suffix: suffix.map(str::to_owned) }
}

#[test]
fn a_page_key_drops_the_root_and_the_locale_marker() {
    let documents = vec![".md".to_owned(), ".fr.md".to_owned()];
    assert_eq!(basename("a/b/c.md"), "c.md");
    assert_eq!(basename("c.md"), "c.md");
    assert_eq!(basename("a/"), "");
    let plain = side("docs", None);
    assert_eq!(keyed(&plain, &documents, "docs/guide/start.md"), Some("guide/start.md".to_owned()));
    assert_eq!(keyed(&plain, &documents, "docs/guide/start.txt"), None);
    assert_eq!(keyed(&plain, &documents, "documents/start.md"), None);
    let only_md = vec![".md".to_owned()];
    assert_eq!(keyed(&plain, &only_md, "docs/guide/start.fr.md"), None);
    let marked = side("docs", Some("fr"));
    assert_eq!(keyed(&marked, &only_md, "docs/guide/start.fr.md"), Some("guide/start.md".to_owned()));
    assert_eq!(keyed(&marked, &only_md, "docs/guide/start.md"), None);
}

#[test]
fn the_nested_root_owns_its_pages() {
    let context = LocaleTreeContext {
        source: side("docs", None),
        target: side("docs/fr", None),
        documents: vec![".md".to_owned()],
    };
    assert_eq!(assign(&context, "docs/fr/a.md"), Some((Owner::Target, "a.md".to_owned())));
    assert_eq!(assign(&context, "docs/a.md"), Some((Owner::Source, "a.md".to_owned())));
    assert_eq!(assign(&context, "other/a.md"), None);
}

#[test]
fn a_resource_id_splits_at_its_coordinates() {
    let full = coordinate("1.0@comp:mod:page.adoc").expect("coordinates");
    assert_eq!(full.version.as_deref(), Some("1.0"));
    assert_eq!(full.component.as_deref(), Some("comp"));
    assert_eq!(full.module.as_deref(), Some("mod"));
    assert_eq!(full.resource, "page.adoc");
    let root = coordinate("comp::page.adoc").expect("a component's root module");
    assert_eq!(root.component.as_deref(), Some("comp"));
    assert_eq!(root.module, None);
    let module = coordinate("mod:family$page.adoc").expect("a module");
    assert_eq!(module.module.as_deref(), Some("mod"));
    assert_eq!(module.resource, "family$page.adoc");
    let bare = coordinate("page.adoc").expect("a resource");
    assert_eq!((bare.version, bare.component, bare.module), (None, None, None));
    assert_eq!(coordinate("a:b:c:d").expect("three parts").resource, "c:d");
    assert!(coordinate("a/b:page").is_none());
    assert!(coordinate("@page").is_none());
    let empty_module = coordinate(":page").expect("an empty module is no module");
    assert_eq!((empty_module.module, empty_module.resource.as_str()), (None, "page"));
}

#[test]
fn claim_carriers_follow_the_reader() {
    assert_eq!(ClaimCarrier::of(Adapter::Rst), ClaimCarrier::RstComment);
    assert_eq!(ClaimCarrier::of(Adapter::AsciiDoc), ClaimCarrier::AdocComment);
    assert_eq!(ClaimCarrier::of(Adapter::Mdx), ClaimCarrier::Definition);
    assert_eq!(ClaimCarrier::RstComment.prefix(), ".. ");
    assert_eq!(ClaimCarrier::AdocComment.prefix(), "// ");
    assert_eq!(ClaimCarrier::Definition.prefix(), "");
    for carrier in [ClaimCarrier::Definition, ClaimCarrier::RstComment, ClaimCarrier::AdocComment] {
        assert_eq!(ClaimCarrier::of(carrier.prover()), carrier);
    }
    assert_ne!(ClaimMissingReason::Absent, ClaimMissingReason::LfsPointer);
}

#[test]
fn labels_are_reported_in_kebab_case() {
    assert_eq!(Outcome::Unmatched.as_str(), "none");
    assert_eq!(Outcome::Exact.as_str(), "exact");
    assert_eq!(Reason::ExactDocumentRenameUnchangedProjection.as_str(), "exact-document-rename-unchanged-projection");
    assert_eq!(SourceChange::Unknown.as_str(), "unknown");
    assert_eq!(TargetChange::NewlyResolved.as_str(), "newly-resolved");
    assert_eq!(Impact::Unaffected.as_str(), "none");
    assert_eq!(Impact::DependencyAndSubjectCochanged.as_str(), "dependency-and-subject-cochanged");
    assert_eq!(Action::Existing.as_str(), "existing");
    assert!(Action::Fix < Action::Check);
    assert_eq!(ScanCacheRowSchema::default().as_str(), "amiss/scan-cache-row");
    assert_eq!(ScanCacheRowSchema::from_name("amiss/scan-cache-row"), Some(ScanCacheRowSchema::Current));
    assert_eq!(ScanCacheRowSchema::from_name("amiss/other"), None);
}

#[test]
fn an_unscanned_inventory_path_raises_its_coverage_rule() {
    assert_eq!(InventoryState::Scanned.coverage_rule(), None);
    assert_eq!(InventoryState::Missing.coverage_rule(), Some("coverage/repository-inventory-missing"));
    assert_eq!(InventoryState::Unsupported.coverage_rule(), Some("coverage/repository-inventory-unsupported"));
    assert_eq!(InventoryState::Outside.coverage_rule(), Some("coverage/repository-inventory-outside"));
    let side = DocumentSide::Scanned { mdx_regions: 1, html_regions: 0, extracted_references: 3 };
    assert_ne!(side, DocumentSide::Unsupported);
    assert_ne!(UnsupportedKind::Symlink, UnsupportedKind::Ceiling);
}
