//! What an organization floor holds the candidate to: the coverage of its
//! protected inventory, the protected control paths it pins, and the
//! resource limits it may only tighten.

use crate::order::views;
use crate::text::same_text;
use crate::policy::InventoryState;
use crate::policy::effects::{ControlKind, ControlSeed, seed_views};
use vstd::prelude::*;

verus! {

/// A resource a floor may bound.
#[derive(Clone, Copy, Debug, PartialEq, Eq, Structural)]
pub enum ResourceName {
    DocumentsPerSnapshot,
    DocumentBlobBytes,
    AggregateDocumentBytesPerSnapshot,
    RawLinkDestinationBytes,
    ParserNesting,
    ParserNodesPerDocument,
    ParserNodesPerSnapshot,
    AggregateEmbeddedCodeEvaluationBytesPerSnapshot,
    ReferencesPerDocument,
    ReferencesPerSnapshot,
    DeclaredLabelsPerSnapshot,
    ReferencedTargetBlobBytes,
    AggregateReferencedTargetBytesPerSnapshot,
    IgnoreDeclarationBlobBytes,
    AggregateIgnoreDeclarationBytesPerSnapshot,
    AggregateLineFragmentEvaluationBytesPerSnapshot,
    AggregateHeadingAnchorEvaluationBytesPerSnapshot,
    ProjectionAssertionsPerSnapshot,
    AggregateProjectionSelectedBytesPerSnapshot,
    ProjectionRecordsComparedPerSnapshot,
    AggregateProjectionProjectedBytesPerSnapshot,
    AggregateProjectionPreviewBytesPerSnapshot,
    SelectedControlBlobBytes,
    AggregateSelectedControlBytesPerSnapshot,
    GitObjectBytes,
    GitCompressedObjectBytes,
    AggregateGitCompressedObjectBytesPerEvaluation,
    GitPackDirectoryEntries,
    GitPackFiles,
    GitPackIndexBytes,
    AggregateGitPackIndexBytes,
    GitDeltaDepth,
    GitIndexBytes,
    GitTreeEntriesPerSnapshot,
    RawPathBytes,
    ControlInputBytes,
    RepositoryPolicyEntries,
    DebtItems,
    WaiverItems,
    TypedAnalysisErrorsRetained,
    CompleteFindings,
    OrganizationPolicyEntries,
    MachineJsonBytes,
    PrivateTemporaryStorageBytes,
    EvaluatorManagedMemoryBytes,
}

/// The scanner's own limits a floor may tighten.
#[derive(Clone, Copy, Debug, PartialEq, Eq, Structural)]
pub struct ScanLimits {
    pub documents_per_snapshot: u64,
    pub document_blob_bytes: u64,
    pub aggregate_document_bytes_per_snapshot: u64,
    pub raw_link_destination_bytes: u64,
    pub parser_nesting: u64,
    pub parser_nodes_per_document: u64,
    pub parser_nodes_per_snapshot: u64,
    pub aggregate_embedded_code_evaluation_bytes_per_snapshot: u64,
    pub references_per_document: u64,
    pub references_per_snapshot: u64,
    pub declared_labels_per_snapshot: u64,
    pub referenced_target_blob_bytes: u64,
    pub aggregate_referenced_target_bytes_per_snapshot: u64,
    pub ignore_declaration_blob_bytes: u64,
    pub aggregate_ignore_declaration_bytes_per_snapshot: u64,
    pub aggregate_line_fragment_evaluation_bytes_per_snapshot: u64,
    pub aggregate_heading_anchor_evaluation_bytes_per_snapshot: u64,
    pub projection_assertions_per_snapshot: u64,
    pub aggregate_projection_selected_bytes_per_snapshot: u64,
    pub projection_records_compared_per_snapshot: u64,
    pub aggregate_projection_projected_bytes_per_snapshot: u64,
    pub aggregate_projection_preview_bytes_per_snapshot: u64,
    pub selected_control_blob_bytes: u64,
    pub aggregate_selected_control_bytes_per_snapshot: u64,
    pub control_input_bytes: u64,
    pub repository_policy_entries: u64,
    pub debt_items: u64,
    pub waiver_items: u64,
    pub errors_retained: u64,
    pub complete_findings: u64,
}

/// The repository reader's limits a floor may tighten.
#[derive(Clone, Copy, Debug, PartialEq, Eq, Structural)]
pub struct GitLimits {
    pub inflated_object_bytes: u64,
    pub compressed_stream_bytes: u64,
    pub aggregate_compressed_bytes: u64,
    pub pack_directory_entries: u64,
    pub pack_files: u64,
    pub pack_index_bytes: u64,
    pub aggregate_pack_index_bytes: u64,
    pub delta_depth: u64,
    pub index_bytes: u64,
    pub tree_entries_per_snapshot: u64,
    pub raw_path_bytes: u64,
}

/// One resource limit row of a floor.
#[derive(Clone, Copy, Debug, PartialEq, Eq, Structural)]
pub struct ResourceLimit {
    pub resource: ResourceName,
    pub maximum: u64,
}

/// The scanner limit a resource names, if it names one.
pub open spec fn scan_slot(l: ScanLimits, r: ResourceName) -> Option<u64> {
    match r {
        ResourceName::DocumentsPerSnapshot => Some(l.documents_per_snapshot),
        ResourceName::DocumentBlobBytes => Some(l.document_blob_bytes),
        ResourceName::AggregateDocumentBytesPerSnapshot => Some(l.aggregate_document_bytes_per_snapshot),
        ResourceName::RawLinkDestinationBytes => Some(l.raw_link_destination_bytes),
        ResourceName::ParserNesting => Some(l.parser_nesting),
        ResourceName::ParserNodesPerDocument => Some(l.parser_nodes_per_document),
        ResourceName::ParserNodesPerSnapshot => Some(l.parser_nodes_per_snapshot),
        ResourceName::AggregateEmbeddedCodeEvaluationBytesPerSnapshot => Some(l.aggregate_embedded_code_evaluation_bytes_per_snapshot),
        ResourceName::ReferencesPerDocument => Some(l.references_per_document),
        ResourceName::ReferencesPerSnapshot => Some(l.references_per_snapshot),
        ResourceName::DeclaredLabelsPerSnapshot => Some(l.declared_labels_per_snapshot),
        ResourceName::ReferencedTargetBlobBytes => Some(l.referenced_target_blob_bytes),
        ResourceName::AggregateReferencedTargetBytesPerSnapshot => Some(l.aggregate_referenced_target_bytes_per_snapshot),
        ResourceName::IgnoreDeclarationBlobBytes => Some(l.ignore_declaration_blob_bytes),
        ResourceName::AggregateIgnoreDeclarationBytesPerSnapshot => Some(l.aggregate_ignore_declaration_bytes_per_snapshot),
        ResourceName::AggregateLineFragmentEvaluationBytesPerSnapshot => Some(l.aggregate_line_fragment_evaluation_bytes_per_snapshot),
        ResourceName::AggregateHeadingAnchorEvaluationBytesPerSnapshot => Some(l.aggregate_heading_anchor_evaluation_bytes_per_snapshot),
        ResourceName::ProjectionAssertionsPerSnapshot => Some(l.projection_assertions_per_snapshot),
        ResourceName::AggregateProjectionSelectedBytesPerSnapshot => Some(l.aggregate_projection_selected_bytes_per_snapshot),
        ResourceName::ProjectionRecordsComparedPerSnapshot => Some(l.projection_records_compared_per_snapshot),
        ResourceName::AggregateProjectionProjectedBytesPerSnapshot => Some(l.aggregate_projection_projected_bytes_per_snapshot),
        ResourceName::AggregateProjectionPreviewBytesPerSnapshot => Some(l.aggregate_projection_preview_bytes_per_snapshot),
        ResourceName::SelectedControlBlobBytes => Some(l.selected_control_blob_bytes),
        ResourceName::AggregateSelectedControlBytesPerSnapshot => Some(l.aggregate_selected_control_bytes_per_snapshot),
        ResourceName::ControlInputBytes => Some(l.control_input_bytes),
        ResourceName::RepositoryPolicyEntries => Some(l.repository_policy_entries),
        ResourceName::DebtItems => Some(l.debt_items),
        ResourceName::WaiverItems => Some(l.waiver_items),
        ResourceName::TypedAnalysisErrorsRetained => Some(l.errors_retained),
        ResourceName::CompleteFindings => Some(l.complete_findings),
        _ => None,
    }
}

/// The repository reader limit a resource names, if it names one.
pub open spec fn git_slot(l: GitLimits, r: ResourceName) -> Option<u64> {
    match r {
        ResourceName::GitObjectBytes => Some(l.inflated_object_bytes),
        ResourceName::GitCompressedObjectBytes => Some(l.compressed_stream_bytes),
        ResourceName::AggregateGitCompressedObjectBytesPerEvaluation => Some(l.aggregate_compressed_bytes),
        ResourceName::GitPackDirectoryEntries => Some(l.pack_directory_entries),
        ResourceName::GitPackFiles => Some(l.pack_files),
        ResourceName::GitPackIndexBytes => Some(l.pack_index_bytes),
        ResourceName::AggregateGitPackIndexBytes => Some(l.aggregate_pack_index_bytes),
        ResourceName::GitDeltaDepth => Some(l.delta_depth),
        ResourceName::GitIndexBytes => Some(l.index_bytes),
        ResourceName::GitTreeEntriesPerSnapshot => Some(l.tree_entries_per_snapshot),
        ResourceName::RawPathBytes => Some(l.raw_path_bytes),
        _ => None,
    }
}

/// Lowers the limit a resource names to `maximum` where that is lower.
fn tighten(scan: &mut ScanLimits, git: &mut GitLimits, r: ResourceName, maximum: u64)
    ensures
        forall|q: ResourceName| #![trigger scan_slot(*final(scan), q)]
            scan_slot(*final(scan), q) == if q == r {
                match scan_slot(*old(scan), q) {
                    Some(v) => Some(if maximum < v { maximum } else { v }),
                    None => None,
                }
            } else {
                scan_slot(*old(scan), q)
            },
        forall|q: ResourceName| #![trigger git_slot(*final(git), q)]
            git_slot(*final(git), q) == if q == r {
                match git_slot(*old(git), q) {
                    Some(v) => Some(if maximum < v { maximum } else { v }),
                    None => None,
                }
            } else {
                git_slot(*old(git), q)
            },
{
    match r {
        ResourceName::DocumentsPerSnapshot => {
            if maximum < scan.documents_per_snapshot {
                scan.documents_per_snapshot = maximum;
            }
        },
        ResourceName::DocumentBlobBytes => {
            if maximum < scan.document_blob_bytes {
                scan.document_blob_bytes = maximum;
            }
        },
        ResourceName::AggregateDocumentBytesPerSnapshot => {
            if maximum < scan.aggregate_document_bytes_per_snapshot {
                scan.aggregate_document_bytes_per_snapshot = maximum;
            }
        },
        ResourceName::RawLinkDestinationBytes => {
            if maximum < scan.raw_link_destination_bytes {
                scan.raw_link_destination_bytes = maximum;
            }
        },
        ResourceName::ParserNesting => {
            if maximum < scan.parser_nesting {
                scan.parser_nesting = maximum;
            }
        },
        ResourceName::ParserNodesPerDocument => {
            if maximum < scan.parser_nodes_per_document {
                scan.parser_nodes_per_document = maximum;
            }
        },
        ResourceName::ParserNodesPerSnapshot => {
            if maximum < scan.parser_nodes_per_snapshot {
                scan.parser_nodes_per_snapshot = maximum;
            }
        },
        ResourceName::AggregateEmbeddedCodeEvaluationBytesPerSnapshot => {
            if maximum < scan.aggregate_embedded_code_evaluation_bytes_per_snapshot {
                scan.aggregate_embedded_code_evaluation_bytes_per_snapshot = maximum;
            }
        },
        ResourceName::ReferencesPerDocument => {
            if maximum < scan.references_per_document {
                scan.references_per_document = maximum;
            }
        },
        ResourceName::ReferencesPerSnapshot => {
            if maximum < scan.references_per_snapshot {
                scan.references_per_snapshot = maximum;
            }
        },
        ResourceName::DeclaredLabelsPerSnapshot => {
            if maximum < scan.declared_labels_per_snapshot {
                scan.declared_labels_per_snapshot = maximum;
            }
        },
        ResourceName::ReferencedTargetBlobBytes => {
            if maximum < scan.referenced_target_blob_bytes {
                scan.referenced_target_blob_bytes = maximum;
            }
        },
        ResourceName::AggregateReferencedTargetBytesPerSnapshot => {
            if maximum < scan.aggregate_referenced_target_bytes_per_snapshot {
                scan.aggregate_referenced_target_bytes_per_snapshot = maximum;
            }
        },
        ResourceName::IgnoreDeclarationBlobBytes => {
            if maximum < scan.ignore_declaration_blob_bytes {
                scan.ignore_declaration_blob_bytes = maximum;
            }
        },
        ResourceName::AggregateIgnoreDeclarationBytesPerSnapshot => {
            if maximum < scan.aggregate_ignore_declaration_bytes_per_snapshot {
                scan.aggregate_ignore_declaration_bytes_per_snapshot = maximum;
            }
        },
        ResourceName::AggregateLineFragmentEvaluationBytesPerSnapshot => {
            if maximum < scan.aggregate_line_fragment_evaluation_bytes_per_snapshot {
                scan.aggregate_line_fragment_evaluation_bytes_per_snapshot = maximum;
            }
        },
        ResourceName::AggregateHeadingAnchorEvaluationBytesPerSnapshot => {
            if maximum < scan.aggregate_heading_anchor_evaluation_bytes_per_snapshot {
                scan.aggregate_heading_anchor_evaluation_bytes_per_snapshot = maximum;
            }
        },
        ResourceName::ProjectionAssertionsPerSnapshot => {
            if maximum < scan.projection_assertions_per_snapshot {
                scan.projection_assertions_per_snapshot = maximum;
            }
        },
        ResourceName::AggregateProjectionSelectedBytesPerSnapshot => {
            if maximum < scan.aggregate_projection_selected_bytes_per_snapshot {
                scan.aggregate_projection_selected_bytes_per_snapshot = maximum;
            }
        },
        ResourceName::ProjectionRecordsComparedPerSnapshot => {
            if maximum < scan.projection_records_compared_per_snapshot {
                scan.projection_records_compared_per_snapshot = maximum;
            }
        },
        ResourceName::AggregateProjectionProjectedBytesPerSnapshot => {
            if maximum < scan.aggregate_projection_projected_bytes_per_snapshot {
                scan.aggregate_projection_projected_bytes_per_snapshot = maximum;
            }
        },
        ResourceName::AggregateProjectionPreviewBytesPerSnapshot => {
            if maximum < scan.aggregate_projection_preview_bytes_per_snapshot {
                scan.aggregate_projection_preview_bytes_per_snapshot = maximum;
            }
        },
        ResourceName::SelectedControlBlobBytes => {
            if maximum < scan.selected_control_blob_bytes {
                scan.selected_control_blob_bytes = maximum;
            }
        },
        ResourceName::AggregateSelectedControlBytesPerSnapshot => {
            if maximum < scan.aggregate_selected_control_bytes_per_snapshot {
                scan.aggregate_selected_control_bytes_per_snapshot = maximum;
            }
        },
        ResourceName::ControlInputBytes => {
            if maximum < scan.control_input_bytes {
                scan.control_input_bytes = maximum;
            }
        },
        ResourceName::RepositoryPolicyEntries => {
            if maximum < scan.repository_policy_entries {
                scan.repository_policy_entries = maximum;
            }
        },
        ResourceName::DebtItems => {
            if maximum < scan.debt_items {
                scan.debt_items = maximum;
            }
        },
        ResourceName::WaiverItems => {
            if maximum < scan.waiver_items {
                scan.waiver_items = maximum;
            }
        },
        ResourceName::TypedAnalysisErrorsRetained => {
            if maximum < scan.errors_retained {
                scan.errors_retained = maximum;
            }
        },
        ResourceName::CompleteFindings => {
            if maximum < scan.complete_findings {
                scan.complete_findings = maximum;
            }
        },
        ResourceName::GitObjectBytes => {
            if maximum < git.inflated_object_bytes {
                git.inflated_object_bytes = maximum;
            }
        },
        ResourceName::GitCompressedObjectBytes => {
            if maximum < git.compressed_stream_bytes {
                git.compressed_stream_bytes = maximum;
            }
        },
        ResourceName::AggregateGitCompressedObjectBytesPerEvaluation => {
            if maximum < git.aggregate_compressed_bytes {
                git.aggregate_compressed_bytes = maximum;
            }
        },
        ResourceName::GitPackDirectoryEntries => {
            if maximum < git.pack_directory_entries {
                git.pack_directory_entries = maximum;
            }
        },
        ResourceName::GitPackFiles => {
            if maximum < git.pack_files {
                git.pack_files = maximum;
            }
        },
        ResourceName::GitPackIndexBytes => {
            if maximum < git.pack_index_bytes {
                git.pack_index_bytes = maximum;
            }
        },
        ResourceName::AggregateGitPackIndexBytes => {
            if maximum < git.aggregate_pack_index_bytes {
                git.aggregate_pack_index_bytes = maximum;
            }
        },
        ResourceName::GitDeltaDepth => {
            if maximum < git.delta_depth {
                git.delta_depth = maximum;
            }
        },
        ResourceName::GitIndexBytes => {
            if maximum < git.index_bytes {
                git.index_bytes = maximum;
            }
        },
        ResourceName::GitTreeEntriesPerSnapshot => {
            if maximum < git.tree_entries_per_snapshot {
                git.tree_entries_per_snapshot = maximum;
            }
        },
        ResourceName::RawPathBytes => {
            if maximum < git.raw_path_bytes {
                git.raw_path_bytes = maximum;
            }
        },
        ResourceName::OrganizationPolicyEntries | ResourceName::MachineJsonBytes | ResourceName::PrivateTemporaryStorageBytes | ResourceName::EvaluatorManagedMemoryBytes => {},
    }
}

/// What a floor's rows leave of one limit: the least of `start` and every
/// maximum they give the resource.
pub open spec fn ceiling(rows: Seq<ResourceLimit>, r: ResourceName, start: u64) -> u64
    decreases rows.len(),
{
    if rows.len() == 0 {
        start
    } else {
        let c = ceiling(rows.drop_last(), r, start);
        if rows.last().resource == r && rows.last().maximum < c {
            rows.last().maximum
        } else {
            c
        }
    }
}

/// A limit a resource names, after a floor's rows.
pub open spec fn tightened(limit: Option<u64>, rows: Seq<ResourceLimit>, r: ResourceName) -> Option<u64> {
    match limit {
        Some(v) => Some(ceiling(rows, r, v)),
        None => None,
    }
}

/// A floor may only tighten built-in limits, never raise them: each limit a
/// row's resource names becomes the least of itself and that row's maximum;
/// resources the scanner does not own leave every limit as it was.
pub fn tightened_limits(scan: ScanLimits, git: GitLimits, floor: &Vec<ResourceLimit>) -> (r: (ScanLimits, GitLimits))
    ensures
        forall|q: ResourceName| #[trigger] scan_slot(r.0, q) == tightened(scan_slot(scan, q), floor@, q),
        forall|q: ResourceName| #[trigger] git_slot(r.1, q) == tightened(git_slot(git, q), floor@, q),
{
    let mut s = scan;
    let mut g = git;
    assert(floor@.take(0) =~= Seq::<ResourceLimit>::empty());
    for i in 0..floor.len()
        invariant
            forall|q: ResourceName| #[trigger] scan_slot(s, q) == tightened(scan_slot(scan, q), floor@.take(i as int), q),
            forall|q: ResourceName| #[trigger] git_slot(g, q) == tightened(git_slot(git, q), floor@.take(i as int), q),
    {
        let row = floor[i];
        tighten(&mut s, &mut g, row.resource, row.maximum);
        assert(floor@.take(i + 1).drop_last() =~= floor@.take(i as int));
        assert(floor@.take(i + 1).last() == row);
        assert forall|q: ResourceName| #[trigger] scan_slot(s, q) == tightened(scan_slot(scan, q), floor@.take(i + 1), q) by {
            assert(scan_slot(s, q) == tightened(scan_slot(scan, q), floor@.take(i + 1), q));
        }
        assert forall|q: ResourceName| #[trigger] git_slot(g, q) == tightened(git_slot(git, q), floor@.take(i + 1), q) by {
            assert(git_slot(g, q) == tightened(git_slot(git, q), floor@.take(i + 1), q));
        }
    }
    assert(floor@.take(floor@.len() as int) =~= floor@);
    (s, g)
}

/// A floor never raises a limit: what its rows leave is at most the limit it
/// started from and at most every maximum they give that resource, and it is
/// one of those values.
pub proof fn lemma_floor_only_tightens(rows: Seq<ResourceLimit>, r: ResourceName, start: u64)
    ensures
        ceiling(rows, r, start) <= start,
        forall|k: int| 0 <= k < rows.len() && (#[trigger] rows[k]).resource == r ==> ceiling(rows, r, start) <= rows[k].maximum,
        ceiling(rows, r, start) == start || exists|k: int| 0 <= k < rows.len() && (#[trigger] rows[k]).resource == r && ceiling(rows, r, start) == rows[k].maximum,
    decreases rows.len(),
{
    if rows.len() > 0 {
        let w = rows.drop_last();
        lemma_floor_only_tightens(w, r, start);
        assert forall|k: int| 0 <= k < rows.len() && (#[trigger] rows[k]).resource == r implies ceiling(rows, r, start) <= rows[k].maximum by {
            if k < rows.len() - 1 {
                assert(rows[k] == w[k]);
            }
        }
        if ceiling(rows, r, start) != start {
            if ceiling(rows, r, start) == rows.last().maximum && rows.last().resource == r {
                assert(rows[rows.len() - 1] == rows.last());
            } else {
                let k = choose|k: int| 0 <= k < w.len() && (#[trigger] w[k]).resource == r && ceiling(w, r, start) == w[k].maximum;
                assert(rows[k] == w[k]);
            }
        }
    }
}

/// Applying one floor twice leaves what applying it once left.
pub proof fn lemma_floor_is_idempotent(rows: Seq<ResourceLimit>, r: ResourceName, start: u64)
    ensures
        ceiling(rows, r, ceiling(rows, r, start)) == ceiling(rows, r, start),
{
    lemma_floor_only_tightens(rows, r, start);
    lemma_ceiling_settles(rows, r, ceiling(rows, r, start));
}

/// A limit already at or under every maximum a floor gives it is left alone.
proof fn lemma_ceiling_settles(rows: Seq<ResourceLimit>, r: ResourceName, start: u64)
    requires
        forall|k: int| 0 <= k < rows.len() && (#[trigger] rows[k]).resource == r ==> start <= rows[k].maximum,
    ensures
        ceiling(rows, r, start) == start,
    decreases rows.len(),
{
    if rows.len() > 0 {
        let w = rows.drop_last();
        assert forall|k: int| 0 <= k < w.len() && (#[trigger] w[k]).resource == r implies start <= w[k].maximum by {
            assert(w[k] == rows[k]);
        }
        lemma_ceiling_settles(w, r, start);
        assert(rows.last() == rows[rows.len() - 1]);
    }
}

/// The floor coverage rule each protected path raises under its candidate
/// state, in the floor's order.
pub open spec fn floor_coverage_seeds(paths: Seq<Seq<u8>>, states: Seq<InventoryState>) -> Seq<(ControlKind, Seq<char>, Seq<u8>)>
    decreases paths.len(),
{
    if paths.len() == 0 {
        seq![]
    } else {
        let last = paths.len() - 1;
        floor_coverage_seeds(paths.drop_last(), states) + match states[last].floor_rule() {
            Some(rule) => seq![(ControlKind::CoverageReduced, rule, paths[last])],
            None => seq![],
        }
    }
}

/// The floor inventory obligation over the candidate: every protected path
/// that is not a scanned candidate document raises its floor coverage rule.
/// `candidate_documents` gives each protected path's candidate state, in the
/// floor's order.
pub fn floor_inventory(protected_inventory: &Vec<Vec<u8>>, candidate_documents: &[InventoryState]) -> (r: Vec<ControlSeed>)
    requires
        candidate_documents@.len() == protected_inventory@.len(),
    ensures
        seed_views(r@) == floor_coverage_seeds(views(protected_inventory@), candidate_documents@),
{
    let mut controls: Vec<ControlSeed> = Vec::new();
    for i in 0..protected_inventory.len()
        invariant
            candidate_documents@.len() == protected_inventory@.len(),
            seed_views(controls@) == floor_coverage_seeds(views(protected_inventory@).take(i as int), candidate_documents@),
    {
        assert(views(protected_inventory@).take(i + 1).drop_last() =~= views(protected_inventory@).take(i as int));
        assert(views(protected_inventory@).take(i + 1)[i as int] == protected_inventory@[i as int]@);
        let ghost pre = seed_views(controls@);
        if let Some(rule) = candidate_documents[i].floor_coverage_rule() {
            controls.push(ControlSeed {
                kind: ControlKind::CoverageReduced,
                rule_id: rule.to_owned(),
                control_path: crate::policy::effects::copy_path(&protected_inventory[i]),
            });
            assert(seed_views(controls@) =~= pre.push((ControlKind::CoverageReduced, rule@, protected_inventory@[i as int]@)));
        } else {
            assert(seed_views(controls@) =~= pre);
        }
    }
    assert(views(protected_inventory@).take(protected_inventory@.len() as int) =~= views(protected_inventory@));
    controls
}

/// One protected control path's state on one side: absent, present with the
/// digest of its exact protected-control evidence, or unsupported because
/// the entry is a tree, symlink, gitlink or recognized LFS pointer.
pub enum ProtectedState {
    Absent,
    Unsupported,
    Present(Vec<u8>),
}

/// Whether both sides hold the path with the same evidence.
pub open spec fn same_evidence(base: ProtectedState, candidate: ProtectedState) -> bool {
    match (base, candidate) {
        (ProtectedState::Present(a), ProtectedState::Present(b)) => a@ == b@,
        _ => false,
    }
}

/// A protected control path raises a control-plane change unless both sides
/// hold it with the same evidence.
pub fn protected_control(path: &Vec<u8>, states: (ProtectedState, ProtectedState)) -> (r: Option<ControlSeed>)
    ensures
        r is None <==> same_evidence(states.0, states.1),
        r matches Some(s) ==> s@ == (ControlKind::ControlPlaneChanged, "control/protected-path"@, path@),
{
    let unchanged = match (&states.0, &states.1) {
        (ProtectedState::Present(a), ProtectedState::Present(b)) => crate::bytes::same_bytes(a, b),
        _ => false,
    };
    if unchanged {
        None
    } else {
        Some(ControlSeed {
            kind: ControlKind::ControlPlaneChanged,
            rule_id: "control/protected-path".to_owned(),
            control_path: crate::policy::effects::copy_path(path),
        })
    }
}

/// How strictly a run blocks, weakest first: observe, then
/// enforce-introduced, then enforce.
#[derive(Clone, Copy, Debug, PartialEq, Eq, Structural)]
pub enum Profile {
    Observe,
    EnforceIntroduced,
    Enforce,
}

impl Profile {
    /// The profile's strength.
    pub open spec fn rank(self) -> nat {
        match self {
            Profile::Observe => 0,
            Profile::EnforceIntroduced => 1,
            Profile::Enforce => 2,
        }
    }

    /// Whether this profile is at least `other`.
    pub fn at_least(self, other: Profile) -> (r: bool)
        ensures
            r == (self.rank() >= other.rank()),
    {
        match (self, other) {
            (_, Profile::Observe) => true,
            (Profile::Observe, _) => false,
            (_, Profile::EnforceIntroduced) => true,
            (Profile::EnforceIntroduced, Profile::Enforce) => false,
            (Profile::Enforce, Profile::Enforce) => true,
        }
    }
}

/// The floor's binding is violated.
#[derive(Clone, Copy, Debug, PartialEq, Eq, Structural)]
pub struct BindingMismatch;

/// Whether a floor binds the run: its repository and full ref are the
/// run's, and the selected profile is at least the floor's minimum.
pub open spec fn floor_binds(floor_repository: Seq<u8>, floor_ref: Seq<char>, minimum: Profile, repository: Option<Seq<u8>>, target_ref: Option<Seq<char>>, profile: Profile) -> bool {
    &&& repository == Some(floor_repository)
    &&& target_ref == Some(floor_ref)
    &&& profile.rank() >= minimum.rank()
}

/// The floor's binding: its repository and full ref must equal the run's,
/// and the selected profile must be at least the floor minimum under
/// `observe < enforce-introduced < enforce`. Any violation is a
/// control-binding mismatch.
pub fn verify_floor(
    floor_repository: &Vec<u8>,
    floor_ref: &str,
    minimum: Profile,
    repository: Option<&Vec<u8>>,
    target_ref: Option<&str>,
    profile: Profile,
) -> (r: Result<(), BindingMismatch>)
    ensures
        r is Ok <==> floor_binds(
            floor_repository@,
            floor_ref@,
            minimum,
            match repository {
                Some(x) => Some(x@),
                None => None,
            },
            match target_ref {
                Some(t) => Some(t@),
                None => None,
            },
            profile,
        ),
{
    let identity = match repository {
        Some(x) => x,
        None => return Err(BindingMismatch),
    };
    if !crate::bytes::same_bytes(floor_repository, identity) {
        return Err(BindingMismatch);
    }
    let named = match target_ref {
        Some(t) => t,
        None => return Err(BindingMismatch),
    };
    if !same_text(floor_ref, named) {
        return Err(BindingMismatch);
    }
    if !profile.at_least(minimum) {
        return Err(BindingMismatch);
    }
    Ok(())
}

} // verus!
