//! The labels a comparison of two snapshots attaches to each pair of
//! observations: how it paired them, why, and what changed on either side,
//! with the closed table that derives the target change and the impact from
//! the two resolutions.

pub mod components;
pub mod directories;

use crate::bytes::same_bytes;
use vstd::prelude::*;

verus! {

/// How firmly two observations were paired.
#[derive(Clone, Copy, Debug, PartialEq, Eq, Structural)]
pub enum Outcome {
    Exact,
    Candidate,
    Ambiguous,
    Unmatched,
}

/// Which correlation rule paired two observations, or why none did.
#[derive(Clone, Copy, Debug, PartialEq, Eq, Structural)]
pub enum Reason {
    SameExtractionKeyAndProjection,
    SameIntentUnchangedProjection,
    SameIntentSourceChanged,
    ExactDocumentRenameUnchangedProjection,
    MultipleCounterparts,
    NewObservation,
    RemovedObservation,
}

/// What happened to the referring source between the two sides.
#[derive(Clone, Copy, Debug, PartialEq, Eq, Structural)]
pub enum SourceChange {
    Equal,
    Changed,
    Unknown,
    Added,
    Removed,
}

/// What happened to the referenced target between the two sides.
#[derive(Clone, Copy, Debug, PartialEq, Eq, Structural)]
pub enum TargetChange {
    Equal,
    Changed,
    NewlyResolved,
    BecameMissing,
    NotComparable,
}

/// What the pair of changes means for the reference.
#[derive(Clone, Copy, Debug, PartialEq, Eq, Structural)]
pub enum Impact {
    Unaffected,
    SubjectChanged,
    DependencyChangedSubjectUnchanged,
    DependencyAndSubjectCochanged,
    ReferenceResolved,
    NotApplicable,
    ObservationCorrelationAmbiguous,
    NewObservation,
    RemovedObservation,
}

impl Outcome {
    /// The kebab-case name an outcome is reported under.
    pub open spec fn name(self) -> Seq<char> {
        match self {
            Outcome::Exact => "exact"@,
            Outcome::Candidate => "candidate"@,
            Outcome::Ambiguous => "ambiguous"@,
            Outcome::Unmatched => "none"@,
        }
    }

    /// The kebab-case name an outcome is reported under.
    pub fn as_str(self) -> (s: &'static str)
        ensures
            s@ == self.name(),
    {
        match self {
            Outcome::Exact => "exact",
            Outcome::Candidate => "candidate",
            Outcome::Ambiguous => "ambiguous",
            Outcome::Unmatched => "none",
        }
    }
}

impl Reason {
    /// The kebab-case name a reason is reported under.
    pub open spec fn name(self) -> Seq<char> {
        match self {
            Reason::SameExtractionKeyAndProjection => "same-extraction-key-and-projection"@,
            Reason::SameIntentUnchangedProjection => "same-intent-unchanged-projection"@,
            Reason::SameIntentSourceChanged => "same-intent-source-changed"@,
            Reason::ExactDocumentRenameUnchangedProjection => "exact-document-rename-unchanged-projection"@,
            Reason::MultipleCounterparts => "multiple-counterparts"@,
            Reason::NewObservation => "new-observation"@,
            Reason::RemovedObservation => "removed-observation"@,
        }
    }

    /// The kebab-case name a reason is reported under.
    pub fn as_str(self) -> (s: &'static str)
        ensures
            s@ == self.name(),
    {
        match self {
            Reason::SameExtractionKeyAndProjection => "same-extraction-key-and-projection",
            Reason::SameIntentUnchangedProjection => "same-intent-unchanged-projection",
            Reason::SameIntentSourceChanged => "same-intent-source-changed",
            Reason::ExactDocumentRenameUnchangedProjection => "exact-document-rename-unchanged-projection",
            Reason::MultipleCounterparts => "multiple-counterparts",
            Reason::NewObservation => "new-observation",
            Reason::RemovedObservation => "removed-observation",
        }
    }
}

impl SourceChange {
    /// The kebab-case name a source change is reported under.
    pub open spec fn name(self) -> Seq<char> {
        match self {
            SourceChange::Equal => "equal"@,
            SourceChange::Changed => "changed"@,
            SourceChange::Unknown => "unknown"@,
            SourceChange::Added => "added"@,
            SourceChange::Removed => "removed"@,
        }
    }

    /// The kebab-case name a source change is reported under.
    pub fn as_str(self) -> (s: &'static str)
        ensures
            s@ == self.name(),
    {
        match self {
            SourceChange::Equal => "equal",
            SourceChange::Changed => "changed",
            SourceChange::Unknown => "unknown",
            SourceChange::Added => "added",
            SourceChange::Removed => "removed",
        }
    }
}

impl TargetChange {
    /// The kebab-case name a target change is reported under.
    pub open spec fn name(self) -> Seq<char> {
        match self {
            TargetChange::Equal => "equal"@,
            TargetChange::Changed => "changed"@,
            TargetChange::NewlyResolved => "newly-resolved"@,
            TargetChange::BecameMissing => "became-missing"@,
            TargetChange::NotComparable => "not-comparable"@,
        }
    }

    /// The kebab-case name a target change is reported under.
    pub fn as_str(self) -> (s: &'static str)
        ensures
            s@ == self.name(),
    {
        match self {
            TargetChange::Equal => "equal",
            TargetChange::Changed => "changed",
            TargetChange::NewlyResolved => "newly-resolved",
            TargetChange::BecameMissing => "became-missing",
            TargetChange::NotComparable => "not-comparable",
        }
    }
}

impl Impact {
    /// The kebab-case name an impact is reported under.
    pub open spec fn name(self) -> Seq<char> {
        match self {
            Impact::Unaffected => "none"@,
            Impact::SubjectChanged => "subject-changed"@,
            Impact::DependencyChangedSubjectUnchanged => "dependency-changed-subject-unchanged"@,
            Impact::DependencyAndSubjectCochanged => "dependency-and-subject-cochanged"@,
            Impact::ReferenceResolved => "reference-resolved"@,
            Impact::NotApplicable => "not-applicable"@,
            Impact::ObservationCorrelationAmbiguous => "observation-correlation-ambiguous"@,
            Impact::NewObservation => "new-observation"@,
            Impact::RemovedObservation => "removed-observation"@,
        }
    }

    /// The kebab-case name an impact is reported under.
    pub fn as_str(self) -> (s: &'static str)
        ensures
            s@ == self.name(),
    {
        match self {
            Impact::Unaffected => "none",
            Impact::SubjectChanged => "subject-changed",
            Impact::DependencyChangedSubjectUnchanged => "dependency-changed-subject-unchanged",
            Impact::DependencyAndSubjectCochanged => "dependency-and-subject-cochanged",
            Impact::ReferenceResolved => "reference-resolved",
            Impact::NotApplicable => "not-applicable",
            Impact::ObservationCorrelationAmbiguous => "observation-correlation-ambiguous",
            Impact::NewObservation => "new-observation",
            Impact::RemovedObservation => "removed-observation",
        }
    }
}

/// How a reference resolved, as the comparison reads it: a resolved target
/// with the digest of its projection where it has one, and for the other
/// answers the canonical bytes of what they carry, which two sides compare.
#[derive(Clone, Debug)]
pub enum Resolution {
    Resolved(Option<Vec<u8>>),
    Missing(Vec<u8>),
    DeclaredUntracked(Vec<u8>),
    TypeMismatch(Vec<u8>),
    UnsupportedTarget,
    UnsupportedSemantics,
    UnsupportedVersion,
    Invalid,
    External,
}

/// A resolution as values.
pub enum ResolutionView {
    Resolved(Option<Seq<u8>>),
    Missing(Seq<u8>),
    DeclaredUntracked(Seq<u8>),
    TypeMismatch(Seq<u8>),
    Other,
}

impl View for Resolution {
    type V = ResolutionView;

    open spec fn view(&self) -> ResolutionView {
        match self {
            Resolution::Resolved(p) => ResolutionView::Resolved(
                match p {
                    Some(d) => Some(d@),
                    None => None,
                },
            ),
            Resolution::Missing(t) => ResolutionView::Missing(t@),
            Resolution::DeclaredUntracked(t) => ResolutionView::DeclaredUntracked(t@),
            Resolution::TypeMismatch(t) => ResolutionView::TypeMismatch(t@),
            _ => ResolutionView::Other,
        }
    }
}

/// The closed derivation table for exact and candidate pairs: the target
/// change, and the impact of it together with the source change.
pub open spec fn derive_spec(left: ResolutionView, right: ResolutionView, source: SourceChange) -> (TargetChange, Impact) {
    let source_changed = source == SourceChange::Changed;
    let equal_impact = if source_changed { Impact::SubjectChanged } else { Impact::Unaffected };
    let unknown = (TargetChange::NotComparable, Impact::NotApplicable);
    match (left, right) {
        (ResolutionView::Resolved(a), ResolutionView::Resolved(b)) => match (a, b) {
            (Some(x), Some(y)) => if x == y {
                (TargetChange::Equal, equal_impact)
            } else if source_changed {
                (TargetChange::Changed, Impact::DependencyAndSubjectCochanged)
            } else {
                (TargetChange::Changed, Impact::DependencyChangedSubjectUnchanged)
            },
            _ => unknown,
        },
        (ResolutionView::Missing(a), ResolutionView::Missing(b)) => if a == b {
            (TargetChange::Equal, equal_impact)
        } else {
            unknown
        },
        (ResolutionView::DeclaredUntracked(a), ResolutionView::DeclaredUntracked(b)) => if a == b {
            (TargetChange::Equal, equal_impact)
        } else {
            unknown
        },
        (ResolutionView::TypeMismatch(a), ResolutionView::TypeMismatch(b)) => if a == b {
            (TargetChange::Equal, equal_impact)
        } else {
            unknown
        },
        (ResolutionView::Missing(_), ResolutionView::Resolved(_)) => (TargetChange::NewlyResolved, Impact::ReferenceResolved),
        (ResolutionView::TypeMismatch(_), ResolutionView::Resolved(_)) => (TargetChange::NewlyResolved, Impact::ReferenceResolved),
        (ResolutionView::Resolved(_), ResolutionView::Missing(_)) => (TargetChange::BecameMissing, Impact::NotApplicable),
        (ResolutionView::Resolved(_), ResolutionView::TypeMismatch(_)) => (TargetChange::BecameMissing, Impact::NotApplicable),
        _ => unknown,
    }
}


/// A target that resolved in the base and is missing or of the wrong type in
/// the candidate became missing, and the converse was newly resolved: the two
/// failures are read alike, and neither transition depends on what the
/// resolutions carry or on whether the source changed.
pub proof fn lemma_transitions_between_resolved_and_failed(a: Option<Seq<u8>>, m: Seq<u8>, s: SourceChange)
    ensures
        derive_spec(ResolutionView::Resolved(a), ResolutionView::Missing(m), s) == (TargetChange::BecameMissing, Impact::NotApplicable),
        derive_spec(ResolutionView::Resolved(a), ResolutionView::TypeMismatch(m), s) == (TargetChange::BecameMissing, Impact::NotApplicable),
        derive_spec(ResolutionView::Missing(m), ResolutionView::Resolved(a), s) == (TargetChange::NewlyResolved, Impact::ReferenceResolved),
        derive_spec(ResolutionView::TypeMismatch(m), ResolutionView::Resolved(a), s) == (TargetChange::NewlyResolved, Impact::ReferenceResolved),
{
}

/// A pair whose two sides resolved to the same projection is equal, and the
/// subject changed exactly when the source changed; two different
/// projections changed the dependency, and the subject with it exactly when
/// the source changed.
pub proof fn lemma_resolved_pairs(x: Seq<u8>, y: Seq<u8>, s: SourceChange)
    ensures
        derive_spec(ResolutionView::Resolved(Some(x)), ResolutionView::Resolved(Some(x)), s).0 == TargetChange::Equal,
        (derive_spec(ResolutionView::Resolved(Some(x)), ResolutionView::Resolved(Some(x)), s).1 == Impact::SubjectChanged) == (s == SourceChange::Changed),
        x != y ==> derive_spec(ResolutionView::Resolved(Some(x)), ResolutionView::Resolved(Some(y)), s).0 == TargetChange::Changed,
        x != y && s == SourceChange::Changed ==> derive_spec(ResolutionView::Resolved(Some(x)), ResolutionView::Resolved(Some(y)), s).1
            == Impact::DependencyAndSubjectCochanged,
        x != y && s != SourceChange::Changed ==> derive_spec(ResolutionView::Resolved(Some(x)), ResolutionView::Resolved(Some(y)), s).1
            == Impact::DependencyChangedSubjectUnchanged,
{
}

/// Two sides that carry the same failed answer (the same missing target, the
/// same declared untracked target, the same mismatched type) are equal, and
/// the subject changed exactly when the source changed; two different
/// carried answers, or a resolved side without a projection digest, cannot be
/// compared.
pub proof fn lemma_same_failures_are_equal(x: Seq<u8>, y: Seq<u8>, a: Option<Seq<u8>>, s: SourceChange)
    ensures
        derive_spec(ResolutionView::Missing(x), ResolutionView::Missing(x), s).0 == TargetChange::Equal,
        derive_spec(ResolutionView::DeclaredUntracked(x), ResolutionView::DeclaredUntracked(x), s).0 == TargetChange::Equal,
        derive_spec(ResolutionView::TypeMismatch(x), ResolutionView::TypeMismatch(x), s).0 == TargetChange::Equal,
        (derive_spec(ResolutionView::Missing(x), ResolutionView::Missing(x), s).1 == Impact::SubjectChanged) == (s == SourceChange::Changed),
        (derive_spec(ResolutionView::Missing(x), ResolutionView::Missing(x), s).1 == Impact::Unaffected) == (s != SourceChange::Changed),
        x != y ==> derive_spec(ResolutionView::Missing(x), ResolutionView::Missing(y), s) == (TargetChange::NotComparable, Impact::NotApplicable),
        x != y ==> derive_spec(ResolutionView::DeclaredUntracked(x), ResolutionView::DeclaredUntracked(y), s) == (TargetChange::NotComparable, Impact::NotApplicable),
        x != y ==> derive_spec(ResolutionView::TypeMismatch(x), ResolutionView::TypeMismatch(y), s) == (TargetChange::NotComparable, Impact::NotApplicable),
        derive_spec(ResolutionView::Resolved(None), ResolutionView::Resolved(a), s) == (TargetChange::NotComparable, Impact::NotApplicable),
        derive_spec(ResolutionView::Resolved(a), ResolutionView::Resolved(None), s) == (TargetChange::NotComparable, Impact::NotApplicable),
{
}

/// A side that is unsupported, invalid or external makes the pair not
/// comparable, whatever the other side is; so does a missing target against
/// a mismatched type, and a declared untracked target against any other kind.
pub proof fn lemma_unrelated_sides_are_not_comparable(r: ResolutionView, x: Seq<u8>, y: Seq<u8>, s: SourceChange)
    ensures
        derive_spec(ResolutionView::Other, r, s) == (TargetChange::NotComparable, Impact::NotApplicable),
        derive_spec(r, ResolutionView::Other, s) == (TargetChange::NotComparable, Impact::NotApplicable),
        derive_spec(ResolutionView::Missing(x), ResolutionView::TypeMismatch(y), s) == (TargetChange::NotComparable, Impact::NotApplicable),
        derive_spec(ResolutionView::TypeMismatch(x), ResolutionView::Missing(y), s) == (TargetChange::NotComparable, Impact::NotApplicable),
        !(r is DeclaredUntracked) ==> derive_spec(ResolutionView::DeclaredUntracked(x), r, s) == (TargetChange::NotComparable, Impact::NotApplicable),
        !(r is DeclaredUntracked) ==> derive_spec(r, ResolutionView::DeclaredUntracked(x), s) == (TargetChange::NotComparable, Impact::NotApplicable),
{
}

/// The base-versus-candidate derivation for exact and candidate pairs, in the
/// closed table's order.
pub fn derive(base: &Resolution, candidate: &Resolution, source: SourceChange) -> (r: (TargetChange, Impact))
    ensures
        r == derive_spec(base@, candidate@, source),
{
    let source_changed = source == SourceChange::Changed;
    let equal_impact = if source_changed {
        Impact::SubjectChanged
    } else {
        Impact::Unaffected
    };
    match (base, candidate) {
        (Resolution::Resolved(left), Resolution::Resolved(right)) => {
            let (left, right) = match (left, right) {
                (Some(l), Some(r)) => (l, r),
                _ => {
                    return (TargetChange::NotComparable, Impact::NotApplicable);
                },
            };
            if same_bytes(left, right) {
                return (TargetChange::Equal, equal_impact);
            }
            let impact = if source_changed {
                Impact::DependencyAndSubjectCochanged
            } else {
                Impact::DependencyChangedSubjectUnchanged
            };
            (TargetChange::Changed, impact)
        },
        (Resolution::Missing(left), Resolution::Missing(right))
        | (Resolution::DeclaredUntracked(left), Resolution::DeclaredUntracked(right))
        | (Resolution::TypeMismatch(left), Resolution::TypeMismatch(right)) => {
            if same_bytes(left, right) {
                (TargetChange::Equal, equal_impact)
            } else {
                (TargetChange::NotComparable, Impact::NotApplicable)
            }
        },
        (Resolution::Missing(_), Resolution::Resolved(_))
        | (Resolution::TypeMismatch(_), Resolution::Resolved(_)) => (
            TargetChange::NewlyResolved,
            Impact::ReferenceResolved,
        ),
        (Resolution::Resolved(_), Resolution::Missing(_))
        | (Resolution::Resolved(_), Resolution::TypeMismatch(_)) => (
            TargetChange::BecameMissing,
            Impact::NotApplicable,
        ),
        _ => (TargetChange::NotComparable, Impact::NotApplicable),
    }
}

/// Why a one-to-one pair was made, and whether its source changed: across an
/// exact document rename, by an unchanged projection, or by intent with a
/// changed source.
pub open spec fn pair_reason_spec(across_rename: bool, same_projection: bool) -> (Reason, SourceChange) {
    if across_rename {
        (Reason::ExactDocumentRenameUnchangedProjection, SourceChange::Equal)
    } else if same_projection {
        (Reason::SameIntentUnchangedProjection, SourceChange::Equal)
    } else {
        (Reason::SameIntentSourceChanged, SourceChange::Changed)
    }
}

/// Why a one-to-one pair was made, and whether its source changed.
pub fn pair_reason(across_rename: bool, same_projection: bool) -> (r: (Reason, SourceChange))
    ensures
        r == pair_reason_spec(across_rename, same_projection),
{
    if across_rename {
        (Reason::ExactDocumentRenameUnchangedProjection, SourceChange::Equal)
    } else if same_projection {
        (Reason::SameIntentUnchangedProjection, SourceChange::Equal)
    } else {
        (Reason::SameIntentSourceChanged, SourceChange::Changed)
    }
}

/// The labels of a comparison row.
#[derive(Clone, Copy, Debug, PartialEq, Eq, Structural)]
pub struct Labels {
    pub outcome: Outcome,
    pub reason: Reason,
    pub source_change: SourceChange,
    pub target_change: TargetChange,
    pub impact: Impact,
}

/// The labels of an observation only one side holds: removed from the base
/// or new on the candidate, with nothing to compare.
pub open spec fn isolated_spec(is_base: bool) -> Labels {
    Labels {
        outcome: Outcome::Unmatched,
        reason: if is_base { Reason::RemovedObservation } else { Reason::NewObservation },
        source_change: if is_base { SourceChange::Removed } else { SourceChange::Added },
        target_change: TargetChange::NotComparable,
        impact: if is_base { Impact::RemovedObservation } else { Impact::NewObservation },
    }
}

/// The labels of an observation only one side holds.
pub fn isolated(is_base: bool) -> (l: Labels)
    ensures
        l == isolated_spec(is_base),
{
    Labels {
        outcome: Outcome::Unmatched,
        reason: if is_base {
            Reason::RemovedObservation
        } else {
            Reason::NewObservation
        },
        source_change: if is_base {
            SourceChange::Removed
        } else {
            SourceChange::Added
        },
        target_change: TargetChange::NotComparable,
        impact: if is_base {
            Impact::RemovedObservation
        } else {
            Impact::NewObservation
        },
    }
}

/// The labels of a component with more than one counterpart on a side.
pub open spec fn ambiguous_spec() -> Labels {
    Labels {
        outcome: Outcome::Ambiguous,
        reason: Reason::MultipleCounterparts,
        source_change: SourceChange::Unknown,
        target_change: TargetChange::NotComparable,
        impact: Impact::ObservationCorrelationAmbiguous,
    }
}

/// The labels of a component with more than one counterpart on a side.
pub fn ambiguous() -> (l: Labels)
    ensures
        l == ambiguous_spec(),
{
    Labels {
        outcome: Outcome::Ambiguous,
        reason: Reason::MultipleCounterparts,
        source_change: SourceChange::Unknown,
        target_change: TargetChange::NotComparable,
        impact: Impact::ObservationCorrelationAmbiguous,
    }
}

/// The labels of an exact pair: equal identity, so equal source, and the
/// derivation of the two resolutions.
pub fn exact_comparison(base: &Resolution, candidate: &Resolution) -> (l: Labels)
    ensures
        l == (Labels {
            outcome: Outcome::Exact,
            reason: Reason::SameExtractionKeyAndProjection,
            source_change: SourceChange::Equal,
            target_change: derive_spec(base@, candidate@, SourceChange::Equal).0,
            impact: derive_spec(base@, candidate@, SourceChange::Equal).1,
        }),
{
    let (target_change, impact) = derive(base, candidate, SourceChange::Equal);
    Labels {
        outcome: Outcome::Exact,
        reason: Reason::SameExtractionKeyAndProjection,
        source_change: SourceChange::Equal,
        target_change,
        impact,
    }
}

/// The labels of a one-to-one candidate pair: the pair's reason and source
/// change, then the derivation of the two resolutions under that source
/// change.
pub fn candidate_comparison(base: &Resolution, candidate: &Resolution, across_rename: bool, same_projection: bool) -> (l: Labels)
    ensures
        ({
            let (reason, source) = pair_reason_spec(across_rename, same_projection);
            l == Labels {
                outcome: Outcome::Candidate,
                reason,
                source_change: source,
                target_change: derive_spec(base@, candidate@, source).0,
                impact: derive_spec(base@, candidate@, source).1,
            }
        }),
{
    let (reason, source_change) = pair_reason(across_rename, same_projection);
    let (target_change, impact) = derive(base, candidate, source_change);
    Labels { outcome: Outcome::Candidate, reason, source_change, target_change, impact }
}

/// An exact pair never reports a changed subject: its source is equal, so
/// its impact is one the target alone decides.
pub proof fn lemma_exact_pair_keeps_its_subject(left: ResolutionView, right: ResolutionView)
    ensures
        derive_spec(left, right, SourceChange::Equal).1 != Impact::SubjectChanged,
        derive_spec(left, right, SourceChange::Equal).1 != Impact::DependencyAndSubjectCochanged,
{
}

/// The paths and identities of one side's documents, as values.
pub open spec fn entry_views(v: Seq<(Vec<u8>, Vec<u8>)>) -> Seq<(Seq<u8>, Seq<u8>)> {
    v.map_values(|e: (Vec<u8>, Vec<u8>)| (e.0@, e.1@))
}

/// Whether no path occurs twice, as in a map keyed by path.
pub open spec fn paths_distinct(v: Seq<(Seq<u8>, Seq<u8>)>) -> bool {
    forall|i: int, j: int| 0 <= i < j < v.len() ==> (#[trigger] v[i]).0 != (#[trigger] v[j]).0
}

/// Whether `path` is among the paths of a side.
pub open spec fn holds_path(v: Seq<(Seq<u8>, Seq<u8>)>, path: Seq<u8>) -> bool {
    exists|i: int| 0 <= i < v.len() && (#[trigger] v[i]).0 == path
}

/// Whether entry `k` of `side` is the only entry of `side` absent from
/// `other` with its identity: a removed (or added) path whose identity no
/// other removed (or added) path shares.
pub open spec fn unique_unmatched(side: Seq<(Seq<u8>, Seq<u8>)>, other: Seq<(Seq<u8>, Seq<u8>)>, k: int) -> bool {
    &&& 0 <= k < side.len()
    &&& !holds_path(other, side[k].0)
    &&& forall|m: int|
        0 <= m < side.len() && m != k && !holds_path(other, (#[trigger] side[m]).0) ==> side[m].1
            != side[k].1
}

/// Whether a removed path and an added path pair up as a rename: each is
/// the only one on its side with their common identity.
pub open spec fn renamed(base: Seq<(Seq<u8>, Seq<u8>)>, candidate: Seq<(Seq<u8>, Seq<u8>)>, from: Seq<u8>, to: Seq<u8>) -> bool {
    exists|i: int, j: int|
        #![trigger base[i], candidate[j]]
        unique_unmatched(base, candidate, i) && unique_unmatched(candidate, base, j) && base[i].0
            == from && candidate[j].0 == to && base[i].1 == candidate[j].1
}

/// Whether `path` is among the paths of a side.
fn has_path(v: &[(Vec<u8>, Vec<u8>)], path: &Vec<u8>) -> (b: bool)
    ensures
        b == holds_path(entry_views(v@), path@),
{
    let ghost w = entry_views(v@);
    let mut i: usize = 0;
    while i < v.len()
        invariant
            i <= v@.len(),
            w == entry_views(v@),
            forall|k: int| 0 <= k < i ==> (#[trigger] w[k]).0 != path@,
        decreases v@.len() - i,
    {
        if same_bytes(&v[i].0, path) {
            assert(w[i as int].0 == path@);
            return true;
        }
        i = i + 1;
    }
    false
}

/// Whether another entry of `side` absent from `other` shares entry `k`'s
/// identity.
fn shared_identity(side: &[(Vec<u8>, Vec<u8>)], other: &[(Vec<u8>, Vec<u8>)], k: usize) -> (b: bool)
    requires
        k < side@.len(),
        !holds_path(entry_views(other@), entry_views(side@)[k as int].0),
    ensures
        b == !unique_unmatched(entry_views(side@), entry_views(other@), k as int),
{
    let ghost w = entry_views(side@);
    let ghost o = entry_views(other@);
    let mut m: usize = 0;
    while m < side.len()
        invariant
            m <= side@.len(),
            k < side@.len(),
            w == entry_views(side@),
            o == entry_views(other@),
            forall|q: int|
                0 <= q < m && q != k && !holds_path(o, (#[trigger] w[q]).0) ==> w[q].1 != w[k as int].1,
        decreases side@.len() - m,
    {
        if m != k && same_bytes(&side[m].1, &side[k].1) && !has_path(other, &side[m].0) {
            assert(w[m as int].1 == w[k as int].1);
            return true;
        }
        m = m + 1;
    }
    false
}

/// Whether added entry `q` of `c` carries identity `id`.
pub open spec fn added_with(c: Seq<(Seq<u8>, Seq<u8>)>, b: Seq<(Seq<u8>, Seq<u8>)>, q: int, id: Seq<u8>) -> bool {
    0 <= q < c.len() && !holds_path(b, c[q].0) && c[q].1 == id
}

/// The one added entry carrying `id`, or `None` when none or several do.
fn single_added(base: &[(Vec<u8>, Vec<u8>)], candidate: &[(Vec<u8>, Vec<u8>)], id: &Vec<u8>) -> (r: Option<usize>)
    ensures
        match r {
            Some(f) => added_with(entry_views(candidate@), entry_views(base@), f as int, id@)
                && forall|q: int| q != f && #[trigger] added_with(entry_views(candidate@), entry_views(base@), q, id@) ==> false,
            None => forall|f: int| #[trigger] added_with(entry_views(candidate@), entry_views(base@), f, id@) ==> exists|q: int| q != f && #[trigger] added_with(entry_views(candidate@), entry_views(base@), q, id@),
        },
{
    let ghost b = entry_views(base@);
    let ghost c = entry_views(candidate@);
    let mut found: Option<usize> = None;
    let mut j: usize = 0;
    while j < candidate.len()
        invariant
            j <= candidate@.len(),
            b == entry_views(base@),
            c == entry_views(candidate@),
            found is None ==> forall|q: int| 0 <= q < j ==> !#[trigger] added_with(c, b, q, id@),
            found matches Some(f) ==> f < j && added_with(c, b, f as int, id@) && forall|q: int| 0 <= q < j && q != f ==> !#[trigger] added_with(c, b, q, id@),
        decreases candidate@.len() - j,
    {
        assert(c[j as int] == (candidate@[j as int].0@, candidate@[j as int].1@));
        if same_bytes(&candidate[j].1, id) && !has_path(base, &candidate[j].0) {
            assert(added_with(c, b, j as int, id@));
            if found.is_some() {
                return None;
            }
            found = Some(j);
        }
        j = j + 1;
    }
    match found {
        Some(f) => Some(f),
        None => None,
    }
}

/// Unique equal identities among removed and added paths. Duplicate identity
/// on either side creates no edge and is never tie-broken.
pub fn unique_path_pairs(base: &[(Vec<u8>, Vec<u8>)], candidate: &[(Vec<u8>, Vec<u8>)]) -> (r: Vec<(Vec<u8>, Vec<u8>)>)
    requires
        paths_distinct(entry_views(base@)),
        paths_distinct(entry_views(candidate@)),
    ensures
        forall|k: int| 0 <= k < r@.len() ==> renamed(entry_views(base@), entry_views(candidate@), (#[trigger] r@[k]).0@, r@[k].1@),
        forall|from: Seq<u8>, to: Seq<u8>| renamed(entry_views(base@), entry_views(candidate@), from, to) ==> exists|k: int| 0 <= k < r@.len() && (#[trigger] r@[k]).0@ == from && r@[k].1@ == to,
{
    let ghost b = entry_views(base@);
    let ghost c = entry_views(candidate@);
    let mut pairs: Vec<(Vec<u8>, Vec<u8>)> = Vec::new();
    let mut i: usize = 0;
    while i < base.len()
        invariant
            i <= base@.len(),
            b == entry_views(base@),
            c == entry_views(candidate@),
            paths_distinct(b),
            paths_distinct(c),
            forall|k: int| 0 <= k < pairs@.len() ==> renamed(b, c, (#[trigger] pairs@[k]).0@, pairs@[k].1@),
            forall|q: int, to: Seq<u8>|
                0 <= q < i && #[trigger] renamed(b, c, b[q].0, to) ==> exists|k: int| 0 <= k < pairs@.len() && (#[trigger] pairs@[k]).0@ == b[q].0 && pairs@[k].1@ == to,
        decreases base@.len() - i,
    {
        assert(b[i as int] == (base@[i as int].0@, base@[i as int].1@));
        let ghost before = pairs@;
        if !has_path(candidate, &base[i].0) && !shared_identity(base, candidate, i) {
            match single_added(base, candidate, &base[i].1) {
                Some(f) => {
                    assert(c[f as int] == (candidate@[f as int].0@, candidate@[f as int].1@));
                    let from = vstd::slice::slice_to_vec(base[i].0.as_slice());
                    let to = vstd::slice::slice_to_vec(candidate[f].0.as_slice());
                    proof {
                        assert forall|m: int| 0 <= m < c.len() && m != f && !holds_path(b, (#[trigger] c[m]).0) implies c[m].1 != c[f as int].1 by {
                            if c[m].1 == c[f as int].1 {
                                assert(added_with(c, b, m, b[i as int].1));
                            }
                        }
                        assert(unique_unmatched(c, b, f as int));
                        assert(renamed(b, c, from@, to@));
                    }
                    pairs.push((from, to));
                },
                None => {},
            }
        }
        proof {
            assert forall|k: int| 0 <= k < pairs@.len() implies renamed(b, c, (#[trigger] pairs@[k]).0@, pairs@[k].1@) by {
                if k < before.len() {
                    assert(pairs@[k] == before[k]);
                }
            }
            assert forall|q: int, to: Seq<u8>|
                0 <= q < i + 1 && #[trigger] renamed(b, c, b[q].0, to) implies exists|k: int| 0 <= k < pairs@.len() && (#[trigger] pairs@[k]).0@ == b[q].0 && pairs@[k].1@ == to by {
                if q < i {
                    let k = choose|k: int| 0 <= k < before.len() && (#[trigger] before[k]).0@ == b[q].0 && before[k].1@ == to;
                    assert(pairs@[k] == before[k]);
                } else {
                    let (x, y) = choose|x: int, y: int|
                        #![trigger b[x], c[y]]
                        unique_unmatched(b, c, x) && unique_unmatched(c, b, y) && b[x].0 == b[q].0 && c[y].0 == to && b[x].1 == c[y].1;
                    assert(x == q);
                    assert(added_with(c, b, y, b[q].1));
                    assert(pairs@.len() == before.len() + 1);
                    assert(pairs@[before.len() as int].1@ == c[y].0) by {
                        if pairs@[before.len() as int].1@ != c[y].0 {
                            assert(false);
                        }
                    }
                }
            }
        }
        i = i + 1;
    }
    pairs
}

/// A rename is a partial injection: two removed paths never pair with one
/// added path, nor one removed path with two added paths.
pub proof fn lemma_renames_are_one_to_one(base: Seq<(Seq<u8>, Seq<u8>)>, candidate: Seq<(Seq<u8>, Seq<u8>)>, from: Seq<u8>, to: Seq<u8>, other: Seq<u8>)
    requires
        paths_distinct(base),
        paths_distinct(candidate),
        renamed(base, candidate, from, to),
    ensures
        renamed(base, candidate, other, to) ==> other == from,
        renamed(base, candidate, from, other) ==> other == to,
{
    let (i, j) = choose|i: int, j: int|
        #![trigger base[i], candidate[j]]
        unique_unmatched(base, candidate, i) && unique_unmatched(candidate, base, j) && base[i].0 == from && candidate[j].0 == to && base[i].1 == candidate[j].1;
    if renamed(base, candidate, other, to) {
        let (x, y) = choose|x: int, y: int|
            #![trigger base[x], candidate[y]]
            unique_unmatched(base, candidate, x) && unique_unmatched(candidate, base, y) && base[x].0 == other && candidate[y].0 == to && base[x].1 == candidate[y].1;
        if y != j {
            assert(candidate[y].0 != candidate[j].0) by {
                if y < j { assert(candidate[y].0 != candidate[j].0); } else { assert(candidate[j].0 != candidate[y].0); }
            }
        }
        if x != i {
            assert(base[x].1 != base[i].1);
        }
    }
    if renamed(base, candidate, from, other) {
        let (x, y) = choose|x: int, y: int|
            #![trigger base[x], candidate[y]]
            unique_unmatched(base, candidate, x) && unique_unmatched(candidate, base, y) && base[x].0 == from && candidate[y].0 == other && base[x].1 == candidate[y].1;
        if x != i {
            assert(base[x].0 != base[i].0) by {
                if x < i { assert(base[x].0 != base[i].0); } else { assert(base[i].0 != base[x].0); }
            }
        }
        if y != j {
            assert(candidate[y].1 != candidate[j].1);
        }
    }
}
} // verus!
