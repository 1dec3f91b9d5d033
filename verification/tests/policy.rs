use amiss::document::Adapter;
use amiss::policy::{
    effects, floor_inventory, inventory_union, protected_control, tightened_limits, ControlKind,
    ControlSeed, Disposition, DocumentInclude, Effects, FindingDisposition, GitLimits, IncludeKind,
    InventoryState, Profile, PromotableFindingKind, ProtectedState, ResourceLimit, ResourceName,
    ScanLimits, ScannerPolicy, verify_floor, BindingMismatch,
};

const POLICY_PATH: &[u8] = b".amiss/policy.toml";

fn row(path: &str, kind: IncludeKind, suffix: Option<&str>, adapter: Option<Adapter>) -> DocumentInclude {
    DocumentInclude { path: path.as_bytes().to_vec(), kind, suffix: suffix.map(str::to_owned), adapter }
}

fn paths(list: &[&str]) -> Vec<Vec<u8>> {
    list.iter().map(|p| p.as_bytes().to_vec()).collect()
}

fn seeds(effects: &Effects) -> Vec<(ControlKind, String, String)> {
    effects
        .controls
        .iter()
        .map(|ControlSeed { kind, rule_id, control_path }| {
            (*kind, rule_id.clone(), String::from_utf8(control_path.clone()).unwrap())
        })
        .collect()
}

fn run(base: Option<&ScannerPolicy>, candidate: Option<&ScannerPolicy>, scanned: &[&str], missing: &[&str]) -> Effects {
    let union = inventory_union(base, candidate);
    let states: Vec<InventoryState> = union
        .iter()
        .map(|p| {
            if scanned.iter().any(|s| s.as_bytes() == p.as_slice()) {
                InventoryState::Scanned
            } else if missing.iter().any(|s| s.as_bytes() == p.as_slice()) {
                InventoryState::Missing
            } else {
                InventoryState::Outside
            }
        })
        .collect();
    effects(base, candidate, &Some(b"base-digest".to_vec()), &None, &POLICY_PATH.to_vec(), &states)
}

fn strict_policy() -> ScannerPolicy {
    ScannerPolicy {
        document_includes: vec![
            row("README", IncludeKind::Document, None, Some(Adapter::Markdown)),
            row("docs", IncludeKind::Tree, Some(".txt"), None),
        ],
        protected_inventory: paths(&["docs/b.md", "docs/a.md"]),
        finding_dispositions: vec![
            FindingDisposition {
                finding_kind: PromotableFindingKind::ExplicitTargetMissing,
                disposition: Disposition::Fail,
            },
            FindingDisposition {
                finding_kind: PromotableFindingKind::InvalidReference,
                disposition: Disposition::Warn,
            },
        ],
    }
}

#[test]
fn an_unchanged_policy_raises_only_coverage() {
    let policy = strict_policy();
    let out = run(Some(&policy), Some(&policy), &["docs/a.md"], &["docs/b.md"]);
    assert_eq!(
        seeds(&out),
        vec![(
            ControlKind::CoverageReduced,
            "coverage/repository-inventory-missing".to_owned(),
            "docs/b.md".to_owned()
        )]
    );
    assert_eq!(out.raised, policy.finding_dispositions);
    assert!(out.floor_raised.is_empty());
    assert_eq!(out.errors_retained, 64);
    assert_eq!(out.complete_findings, 100_000);
}

#[test]
fn removing_the_policy_weakens_every_row() {
    let policy = strict_policy();
    let out = run(Some(&policy), None, &["docs/a.md", "docs/b.md"], &[]);
    assert_eq!(
        seeds(&out),
        vec![
            (ControlKind::PolicyWeakened, "policy/include-document-removed".to_owned(), "README".to_owned()),
            (ControlKind::PolicyWeakened, "policy/include-suffix-selector-removed".to_owned(), "docs".to_owned()),
            (ControlKind::PolicyWeakened, "policy/inventory-removed".to_owned(), "docs/b.md".to_owned()),
            (ControlKind::PolicyWeakened, "policy/inventory-removed".to_owned(), "docs/a.md".to_owned()),
            (
                ControlKind::PolicyWeakened,
                "policy/disposition/explicit-target-missing".to_owned(),
                ".amiss/policy.toml".to_owned()
            ),
            (
                ControlKind::PolicyWeakened,
                "policy/disposition/invalid-reference".to_owned(),
                ".amiss/policy.toml".to_owned()
            ),
        ]
    );
    assert!(out.raised.is_empty());
}

#[test]
fn a_lowered_disposition_is_a_weakening_and_a_raised_one_is_not() {
    let base = strict_policy();
    let mut candidate = strict_policy();
    candidate.finding_dispositions = vec![
        FindingDisposition {
            finding_kind: PromotableFindingKind::InvalidReference,
            disposition: Disposition::Fail,
        },
        FindingDisposition {
            finding_kind: PromotableFindingKind::ExplicitTargetMissing,
            disposition: Disposition::Warn,
        },
    ];
    let out = run(Some(&base), Some(&candidate), &["docs/a.md", "docs/b.md"], &[]);
    assert_eq!(
        seeds(&out),
        vec![(
            ControlKind::PolicyWeakened,
            "policy/disposition/explicit-target-missing".to_owned(),
            ".amiss/policy.toml".to_owned()
        )]
    );
    assert_eq!(out.raised, candidate.finding_dispositions);
}

#[test]
fn a_changed_include_and_a_dropped_binding_are_weakenings() {
    let base = strict_policy();
    let mut candidate = strict_policy();
    candidate.document_includes = vec![
        row("README", IncludeKind::Document, None, None),
        row("docs", IncludeKind::Tree, None, None),
    ];
    let out = run(Some(&base), Some(&candidate), &["docs/a.md", "docs/b.md"], &[]);
    assert_eq!(
        seeds(&out),
        vec![
            (ControlKind::PolicyWeakened, "policy/include-binding-removed".to_owned(), "README".to_owned()),
            (ControlKind::PolicyWeakened, "policy/include-suffix-removed".to_owned(), "docs".to_owned()),
        ]
    );
}

#[test]
fn coverage_walks_the_union_in_byte_order_once_each() {
    let base = ScannerPolicy {
        document_includes: vec![],
        protected_inventory: paths(&["z.md", "b.md", "b.md"]),
        finding_dispositions: vec![],
    };
    let candidate = ScannerPolicy {
        document_includes: vec![],
        protected_inventory: paths(&["a.md", "z.md", "B.md"]),
        finding_dispositions: vec![],
    };
    assert_eq!(inventory_union(Some(&base), Some(&candidate)), paths(&["B.md", "a.md", "b.md", "z.md"]));
    let out = run(Some(&base), Some(&candidate), &["a.md"], &["z.md"]);
    assert_eq!(
        seeds(&out),
        vec![
            (ControlKind::PolicyWeakened, "policy/inventory-removed".to_owned(), "b.md".to_owned()),
            (ControlKind::PolicyWeakened, "policy/inventory-removed".to_owned(), "b.md".to_owned()),
            (ControlKind::CoverageReduced, "coverage/repository-inventory-outside".to_owned(), "B.md".to_owned()),
            (ControlKind::CoverageReduced, "coverage/repository-inventory-outside".to_owned(), "b.md".to_owned()),
            (ControlKind::CoverageReduced, "coverage/repository-inventory-missing".to_owned(), "z.md".to_owned()),
        ]
    );
}

#[test]
fn the_disposition_rule_names_the_kind() {
    for kind in [
        PromotableFindingKind::ExplicitTargetMissing,
        PromotableFindingKind::ExplicitTargetTypeMismatch,
        PromotableFindingKind::InvalidReference,
    ] {
        assert_eq!(kind.disposition_rule(), format!("policy/disposition/{}", kind.as_str()));
    }
}

#[test]
fn defaults_hold_the_built_in_ceilings() {
    let out = Effects::default();
    assert!(out.raised.is_empty() && out.floor_raised.is_empty() && out.controls.is_empty());
    assert_eq!((out.errors_retained, out.complete_findings), (64, 100_000));
}

fn scan_limits(value: u64) -> ScanLimits {
    ScanLimits {
        documents_per_snapshot: value,
        document_blob_bytes: value,
        aggregate_document_bytes_per_snapshot: value,
        raw_link_destination_bytes: value,
        parser_nesting: value,
        parser_nodes_per_document: value,
        parser_nodes_per_snapshot: value,
        aggregate_embedded_code_evaluation_bytes_per_snapshot: value,
        references_per_document: value,
        references_per_snapshot: value,
        declared_labels_per_snapshot: value,
        referenced_target_blob_bytes: value,
        aggregate_referenced_target_bytes_per_snapshot: value,
        ignore_declaration_blob_bytes: value,
        aggregate_ignore_declaration_bytes_per_snapshot: value,
        aggregate_line_fragment_evaluation_bytes_per_snapshot: value,
        aggregate_heading_anchor_evaluation_bytes_per_snapshot: value,
        projection_assertions_per_snapshot: value,
        aggregate_projection_selected_bytes_per_snapshot: value,
        projection_records_compared_per_snapshot: value,
        aggregate_projection_projected_bytes_per_snapshot: value,
        aggregate_projection_preview_bytes_per_snapshot: value,
        selected_control_blob_bytes: value,
        aggregate_selected_control_bytes_per_snapshot: value,
        control_input_bytes: value,
        repository_policy_entries: value,
        debt_items: value,
        waiver_items: value,
        errors_retained: value,
        complete_findings: value,
    }
}

fn git_limits(value: u64) -> GitLimits {
    GitLimits {
        inflated_object_bytes: value,
        compressed_stream_bytes: value,
        aggregate_compressed_bytes: value,
        pack_directory_entries: value,
        pack_files: value,
        pack_index_bytes: value,
        aggregate_pack_index_bytes: value,
        delta_depth: value,
        index_bytes: value,
        tree_entries_per_snapshot: value,
        raw_path_bytes: value,
    }
}

fn limit(resource: ResourceName, maximum: u64) -> ResourceLimit {
    ResourceLimit { resource, maximum }
}

#[test]
fn a_floor_only_tightens_limits() {
    let rows = vec![
        limit(ResourceName::CompleteFindings, 500),
        limit(ResourceName::DocumentBlobBytes, 5_000),
        limit(ResourceName::GitDeltaDepth, 10),
        limit(ResourceName::CompleteFindings, 200),
        limit(ResourceName::TypedAnalysisErrorsRetained, 16),
        limit(ResourceName::MachineJsonBytes, 1),
    ];
    let (scan, git) = tightened_limits(scan_limits(1_000), git_limits(50), &rows);
    let mut expected_scan = scan_limits(1_000);
    expected_scan.complete_findings = 200;
    expected_scan.errors_retained = 16;
    let mut expected_git = git_limits(50);
    expected_git.delta_depth = 10;
    assert_eq!(scan, expected_scan);
    assert_eq!(git, expected_git);
    // applying the same floor again changes nothing
    assert_eq!(tightened_limits(scan, git, &rows), (expected_scan, expected_git));
}

#[test]
fn floor_inventory_reports_each_unscanned_path_in_floor_order() {
    let inventory = paths(&["z.md", "a.md", "m.md"]);
    let states = [InventoryState::Unsupported, InventoryState::Scanned, InventoryState::Missing];
    let got: Vec<(ControlKind, String, String)> = floor_inventory(&inventory, &states)
        .into_iter()
        .map(|s| (s.kind, s.rule_id, String::from_utf8(s.control_path).unwrap()))
        .collect();
    assert_eq!(
        got,
        vec![
            (ControlKind::CoverageReduced, "coverage/floor-inventory-unsupported".to_owned(), "z.md".to_owned()),
            (ControlKind::CoverageReduced, "coverage/floor-inventory-missing".to_owned(), "m.md".to_owned()),
        ]
    );
}

#[test]
fn a_protected_path_changes_unless_both_sides_hold_the_same_evidence() {
    let path = b"CODEOWNERS".to_vec();
    let same = (ProtectedState::Present(vec![1, 2, 3]), ProtectedState::Present(vec![1, 2, 3]));
    assert!(protected_control(&path, same).is_none());
    for states in [
        (ProtectedState::Present(vec![1, 2, 3]), ProtectedState::Present(vec![1, 2, 4])),
        (ProtectedState::Absent, ProtectedState::Absent),
        (ProtectedState::Absent, ProtectedState::Present(vec![1])),
        (ProtectedState::Unsupported, ProtectedState::Unsupported),
    ] {
        let seed = protected_control(&path, states).expect("a change");
        assert_eq!(seed.kind, ControlKind::ControlPlaneChanged);
        assert_eq!(seed.rule_id, "control/protected-path");
        assert_eq!(seed.control_path, path);
    }
}

#[test]
fn a_floor_binds_only_its_repository_ref_and_stronger_profiles() {
    let repo = b"github.com/org/repo".to_vec();
    let other = b"github.com/org/other".to_vec();
    let main = "refs/heads/main";
    assert_eq!(verify_floor(&repo, main, Profile::EnforceIntroduced, Some(&repo), Some(main), Profile::Enforce), Ok(()));
    assert_eq!(verify_floor(&repo, main, Profile::EnforceIntroduced, Some(&repo), Some(main), Profile::EnforceIntroduced), Ok(()));
    assert_eq!(verify_floor(&repo, main, Profile::EnforceIntroduced, Some(&repo), Some(main), Profile::Observe), Err(BindingMismatch));
    assert_eq!(verify_floor(&repo, main, Profile::Observe, Some(&other), Some(main), Profile::Enforce), Err(BindingMismatch));
    assert_eq!(verify_floor(&repo, main, Profile::Observe, None, Some(main), Profile::Enforce), Err(BindingMismatch));
    assert_eq!(verify_floor(&repo, main, Profile::Observe, Some(&repo), Some("refs/heads/dev"), Profile::Enforce), Err(BindingMismatch));
    assert_eq!(verify_floor(&repo, main, Profile::Observe, Some(&repo), None, Profile::Enforce), Err(BindingMismatch));
}

#[test]
fn effects_carry_the_policy_digests_and_no_external_control_yet() {
    let e = run(None, None, &[], &[]);
    assert_eq!(e.base_digest, Some(b"base-digest".to_vec()));
    assert_eq!(e.candidate_digest, None);
    assert!(e.floor.is_none() && e.debt.is_none() && e.waiver.is_none() && e.time.is_none() && e.constraint.is_none());
    assert!(e.floor_raised.is_empty());
}
