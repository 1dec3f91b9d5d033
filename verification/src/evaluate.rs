//! Finding construction's decisions: what one side of a document path raises,
//! which findings a reference's resolution can raise, how a reference failure
//! is attributed from the facts on either side, and the respelling a missing
//! path is fixed with.

pub mod relocation;
pub mod structural;
pub mod trace;

use crate::bytes::same_bytes;
use crate::correlate::{Impact, Outcome, Resolution, ResolutionView};
use crate::feedback::LocationSide;
use vstd::prelude::*;
use vstd::utf8::{encode_utf8, valid_utf8};

verus! {

/// One side of a document path, reduced to what finding construction reads.
#[derive(Clone, Copy, Debug, PartialEq, Eq, Structural)]
pub enum DocumentSide {
    Scanned { mdx_regions: u64, html_regions: u64, extracted_references: u64 },
    Unsupported,
    ExcludedBuiltIn,
}

/// Whose change a finding belongs to.
#[derive(Clone, Copy, Debug, PartialEq, Eq, Structural)]
pub enum Attribution {
    Introduced,
    PreExisting,
    Resolved,
    Unknown,
    NotApplicable,
}

/// How a reference failure is attributed from the facts recorded on either
/// side: only on the candidate it was introduced, only on the base it was
/// resolved, on both the same way it was already there, on both differently
/// nobody can say, and on neither there is nothing to attribute.
pub open spec fn attribution_of(base_fact: bool, candidate_fact: bool, same_failure: bool) -> Attribution {
    if !base_fact && candidate_fact {
        Attribution::Introduced
    } else if base_fact && !candidate_fact {
        Attribution::Resolved
    } else if base_fact && candidate_fact && same_failure {
        Attribution::PreExisting
    } else if base_fact && candidate_fact {
        Attribution::Unknown
    } else {
        Attribution::NotApplicable
    }
}

/// How a reference failure is attributed from the facts on either side.
pub fn reference_attribution(base_fact: bool, candidate_fact: bool, same_failure: bool) -> (a: Attribution)
    ensures
        a == attribution_of(base_fact, candidate_fact, same_failure),
{
    match (base_fact, candidate_fact) {
        (false, true) => Attribution::Introduced,
        (true, false) => Attribution::Resolved,
        (true, true) => if same_failure {
            Attribution::PreExisting
        } else {
            Attribution::Unknown
        },
        (false, false) => Attribution::NotApplicable,
    }
}

/// The attribution an invalid candidate reference carries: unknown for an
/// alternative occurrence or under an ambiguous pairing; otherwise
/// pre-existing when its base counterpart was invalid with an equal raw
/// destination, and introduced when not.
pub open spec fn invalid_attribution_of(outcome: Outcome, primary: bool, base_invalid_alike: bool) -> Attribution {
    if !primary || outcome == Outcome::Ambiguous {
        Attribution::Unknown
    } else if base_invalid_alike {
        Attribution::PreExisting
    } else {
        Attribution::Introduced
    }
}

/// The attribution an invalid candidate reference carries. `primary` says
/// whether it is its comparison's candidate primary, `base_invalid_alike`
/// whether that comparison's base primary was invalid with the same raw
/// destination.
pub fn invalid_attribution(outcome: Outcome, primary: bool, base_invalid_alike: bool) -> (a: Attribution)
    ensures
        a == invalid_attribution_of(outcome, primary, base_invalid_alike),
{
    if !primary || outcome == Outcome::Ambiguous {
        Attribution::Unknown
    } else if base_invalid_alike {
        Attribution::PreExisting
    } else {
        Attribution::Introduced
    }
}

/// The findings one document path can raise on its own.
#[derive(Clone, Copy, Debug, PartialEq, Eq, Structural)]
pub enum DocumentFindingKind {
    DocumentRemoved,
    UnsupportedDocumentFormat,
    OpaqueMdxRegion,
    OpaqueHtmlRegion,
    UnlinkedDocument,
}

/// What a document path raises: a removal when only the base has it;
/// otherwise, on the candidate side, an unsupported format, or for a scanned
/// document each kind of opaque region it holds and, where the site's
/// navigation covers it and does not reach it, that it is unlinked.
pub open spec fn document_findings_of(base: Option<DocumentSide>, candidate: Option<DocumentSide>, unlinked: bool) -> Seq<DocumentFindingKind> {
    if base is Some && candidate is None {
        seq![DocumentFindingKind::DocumentRemoved]
    } else {
        match candidate {
            Some(DocumentSide::Unsupported) => seq![DocumentFindingKind::UnsupportedDocumentFormat],
            Some(DocumentSide::Scanned { mdx_regions, html_regions, .. }) => {
                let mdx = if mdx_regions > 0 { seq![DocumentFindingKind::OpaqueMdxRegion] } else { seq![] };
                let html = if html_regions > 0 { seq![DocumentFindingKind::OpaqueHtmlRegion] } else { seq![] };
                let nav = if unlinked { seq![DocumentFindingKind::UnlinkedDocument] } else { seq![] };
                mdx + html + nav
            },
            _ => seq![],
        }
    }
}

/// One finding a document path raises: its kind, how it is attributed, and
/// where it is located. A document finding carries no observation and no span.
#[derive(Debug, PartialEq, Eq)]
pub struct DocumentFinding {
    pub kind: DocumentFindingKind,
    pub attribution: Attribution,
    pub side: LocationSide,
    pub path: Vec<u8>,
}

/// Where a document finding is located: a removal on the base side, every
/// other document finding on the candidate side.
pub open spec fn document_side_of(kind: DocumentFindingKind) -> LocationSide {
    if kind == DocumentFindingKind::DocumentRemoved {
        LocationSide::Base
    } else {
        LocationSide::Candidate
    }
}

/// Whether `f` is the finding of kind `kind` for the document at `path`: no
/// document finding is attributed, and it is located at the document's path.
pub open spec fn is_document_finding(f: DocumentFinding, kind: DocumentFindingKind, path: Seq<u8>) -> bool {
    &&& f.kind == kind
    &&& f.attribution == Attribution::NotApplicable
    &&& f.side == document_side_of(kind)
    &&& f.path@ == path
}

fn document_finding(kind: DocumentFindingKind, path: &[u8]) -> (f: DocumentFinding)
    ensures
        is_document_finding(f, kind, path@),
{
    let side = if kind == DocumentFindingKind::DocumentRemoved {
        LocationSide::Base
    } else {
        LocationSide::Candidate
    };
    DocumentFinding { kind, attribution: Attribution::NotApplicable, side, path: crate::tree::copy_bytes(path) }
}

/// What the document at `path` raises. `unlinked` says whether the site's
/// navigation covers the path, is not the path itself, and does not reach it.
pub fn document_findings(path: &[u8], base: Option<DocumentSide>, candidate: Option<DocumentSide>, unlinked: bool) -> (r: Vec<DocumentFinding>)
    ensures
        r@.len() == document_findings_of(base, candidate, unlinked).len(),
        forall|i: int|
            0 <= i < r@.len() ==> is_document_finding(
                #[trigger] r@[i],
                document_findings_of(base, candidate, unlinked)[i],
                path@,
            ),
{
    let ghost kinds = document_findings_of(base, candidate, unlinked);
    let mut wanted: Vec<DocumentFindingKind> = Vec::new();
    if base.is_some() && candidate.is_none() {
        wanted.push(DocumentFindingKind::DocumentRemoved);
        assert(wanted@ =~= seq![DocumentFindingKind::DocumentRemoved]);
    } else {
        match candidate {
            None | Some(DocumentSide::ExcludedBuiltIn) => {},
            Some(DocumentSide::Unsupported) => {
                wanted.push(DocumentFindingKind::UnsupportedDocumentFormat);
            },
            Some(DocumentSide::Scanned { mdx_regions, html_regions, .. }) => {
                if mdx_regions > 0 {
                    wanted.push(DocumentFindingKind::OpaqueMdxRegion);
                }
                if html_regions > 0 {
                    wanted.push(DocumentFindingKind::OpaqueHtmlRegion);
                }
                if unlinked {
                    wanted.push(DocumentFindingKind::UnlinkedDocument);
                }
            },
        }
        proof {
            match candidate {
                Some(DocumentSide::Scanned { mdx_regions, html_regions, .. }) => {
                    let mdx = if mdx_regions > 0 { seq![DocumentFindingKind::OpaqueMdxRegion] } else { seq![] };
                    let html = if html_regions > 0 { seq![DocumentFindingKind::OpaqueHtmlRegion] } else { seq![] };
                    let nav = if unlinked { seq![DocumentFindingKind::UnlinkedDocument] } else { seq![] };
                    assert(wanted@ =~= mdx + html + nav);
                },
                Some(DocumentSide::Unsupported) => {
                    assert(wanted@ =~= seq![DocumentFindingKind::UnsupportedDocumentFormat]);
                },
                _ => {
                    assert(wanted@ =~= Seq::<DocumentFindingKind>::empty());
                },
            }
        }
    }
    assert(wanted@ == kinds);
    let mut found: Vec<DocumentFinding> = Vec::new();
    for k in 0..wanted.len()
        invariant
            wanted@ == kinds,
            found@.len() == k,
            forall|i: int| 0 <= i < k ==> is_document_finding(#[trigger] found@[i], kinds[i], path@),
    {
        found.push(document_finding(wanted[k], path));
    }
    found
}

/// The findings a reference's resolution can raise.
#[derive(Clone, Copy, Debug, PartialEq, Eq, Structural)]
pub enum ReferenceFindingKind {
    ExplicitTargetMissing,
    ExplicitTargetTypeMismatch,
    InvalidReference,
    UnsupportedReferenceSemantics,
    UnsupportedVersionScope,
    UnsupportedTargetKind,
    TargetDeclaredUntracked,
}

/// The structural finding a resolution raises, aggregated by key across both
/// sides, and the boundary finding it raises instead, if any.
pub open spec fn resolution_kinds_of(r: Resolution) -> (Option<ReferenceFindingKind>, Option<ReferenceFindingKind>) {
    match r {
        Resolution::Missing(_) => (Some(ReferenceFindingKind::ExplicitTargetMissing), None),
        Resolution::TypeMismatch(_) => (Some(ReferenceFindingKind::ExplicitTargetTypeMismatch), None),
        Resolution::Invalid => (None, Some(ReferenceFindingKind::InvalidReference)),
        Resolution::UnsupportedSemantics => (None, Some(ReferenceFindingKind::UnsupportedReferenceSemantics)),
        Resolution::UnsupportedVersion => (None, Some(ReferenceFindingKind::UnsupportedVersionScope)),
        Resolution::UnsupportedTarget => (None, Some(ReferenceFindingKind::UnsupportedTargetKind)),
        Resolution::DeclaredUntracked(_) => (None, Some(ReferenceFindingKind::TargetDeclaredUntracked)),
        Resolution::Resolved(_) | Resolution::External => (None, None),
    }
}

/// The structural and boundary findings a resolution raises.
pub fn resolution_kinds(r: &Resolution) -> (k: (Option<ReferenceFindingKind>, Option<ReferenceFindingKind>))
    ensures
        k == resolution_kinds_of(*r),
{
    match r {
        Resolution::Missing(_) => (Some(ReferenceFindingKind::ExplicitTargetMissing), None),
        Resolution::TypeMismatch(_) => (Some(ReferenceFindingKind::ExplicitTargetTypeMismatch), None),
        Resolution::Invalid => (None, Some(ReferenceFindingKind::InvalidReference)),
        Resolution::UnsupportedSemantics => (None, Some(ReferenceFindingKind::UnsupportedReferenceSemantics)),
        Resolution::UnsupportedVersion => (None, Some(ReferenceFindingKind::UnsupportedVersionScope)),
        Resolution::UnsupportedTarget => (None, Some(ReferenceFindingKind::UnsupportedTargetKind)),
        Resolution::DeclaredUntracked(_) => (None, Some(ReferenceFindingKind::TargetDeclaredUntracked)),
        Resolution::Resolved(_) | Resolution::External => (None, None),
    }
}

/// A resolution raises at most one finding: never a structural and a
/// boundary finding together, and a resolved or external reference none.
pub proof fn lemma_one_finding_per_resolution(r: Resolution)
    ensures
        !(resolution_kinds_of(r).0 is Some && resolution_kinds_of(r).1 is Some),
        (r is Resolved || r is External) ==> resolution_kinds_of(r) == (
            None::<ReferenceFindingKind>,
            None::<ReferenceFindingKind>,
        ),
{
}

/// The part of a destination before its first `#`.
pub open spec fn before_fragment(raw: Seq<char>) -> Seq<char> {
    raw.take(crate::text::find(raw, 0, raw.len() as int, '#'))
}

/// The respelling that fixes a path a reference missed when a nearby path
/// exists: the author wrote only the tail of the missed path, so the tail of
/// the near path, from the same place, replaces it. None when the written
/// part is not a whole-segment tail of the missed path, when the near path
/// does not share the missed path's head, or when the near path is not text.
pub open spec fn path_respelling_spec(raw: Seq<char>, missed: Seq<u8>, near: Seq<u8>) -> Option<Seq<u8>> {
    let part = encode_utf8(before_fragment(raw));
    let tail_at = missed.len() - part.len();
    if tail_at < 0 || missed.skip(tail_at) != part || (tail_at != 0 && missed[tail_at - 1] != 0x2f)
        || near.len() < tail_at || near.take(tail_at) != missed.take(tail_at) || !valid_utf8(near) {
        None
    } else {
        Some(near.skip(tail_at))
    }
}

/// The respelling that fixes a path a reference missed when a nearby path
/// exists. `raw` is the destination as written, `missed` the path it was
/// resolved to, and `near` the nearby path that exists.
pub fn path_respelling(raw: &str, missed: &[u8], near: &[u8]) -> (r: Option<String>)
    ensures
        match r {
            Some(s) => path_respelling_spec(raw@, missed@, near@) == Some(encode_utf8(s@)),
            None => path_respelling_spec(raw@, missed@, near@) is None,
        },
{
    let chars = crate::text::chars_of(raw);
    let hash = crate::text::find_char(chars.as_slice(), 0, chars.len(), '#');
    let part_text = crate::text::text_of(chars.as_slice(), 0, hash);
    proof {
        assert(chars@.subrange(0, hash as int) =~= before_fragment(raw@));
    }
    let part = part_text.as_str().as_bytes();
    if part.len() > missed.len() {
        return None;
    }
    let tail_at = missed.len() - part.len();
    let tail = vstd::slice::slice_subrange(missed, tail_at, missed.len());
    assert(tail@ =~= missed@.skip(tail_at as int));
    if !same_bytes(tail, part) {
        return None;
    }
    if tail_at != 0 && missed[tail_at - 1] != 0x2f {
        return None;
    }
    if near.len() < tail_at {
        return None;
    }
    let near_head = vstd::slice::slice_subrange(near, 0, tail_at);
    let missed_head = vstd::slice::slice_subrange(missed, 0, tail_at);
    assert(near_head@ =~= near@.take(tail_at as int));
    assert(missed_head@ =~= missed@.take(tail_at as int));
    if !same_bytes(near_head, missed_head) {
        return None;
    }
    if crate::text::utf8_text(near).is_none() {
        return None;
    }
    let near_tail = vstd::slice::slice_subrange(near, tail_at, near.len());
    assert(near_tail@ =~= near@.skip(tail_at as int));
    match crate::text::utf8_text(near_tail) {
        Some(t) => {
            let owned = t.to_owned();
            proof {
                vstd::utf8::decode_utf8_encode_utf8(near_tail@);
            }
            Some(owned)
        },
        None => {
            proof {
                if tail_at > 0 {
                    assert(near@[tail_at - 1] == near_head@[tail_at - 1]);
                    assert(missed@[tail_at - 1] == missed_head@[tail_at - 1]);
                }
                lemma_tail_after_slash_is_text(near@, tail_at as int);
                assert(near@.subrange(tail_at as int, near@.len() as int) =~= near_tail@);
            }
            None
        },
    }
}

/// A valid text split right after a `/` leaves a valid text behind it.
proof fn lemma_tail_after_slash_is_text(near: Seq<u8>, tail_at: int)
    requires
        valid_utf8(near),
        0 <= tail_at <= near.len(),
        tail_at == 0 || near[tail_at - 1] == 0x2f,
    ensures
        valid_utf8(near.subrange(tail_at, near.len() as int)),
{
    vstd::utf8::is_char_boundary_start_end_of_seq(near);
    if tail_at > 0 {
        vstd::utf8::is_char_boundary_iff_not_is_continuation_byte(near, tail_at - 1);
        crate::bytes::lemma_boundary_after_ascii(near, tail_at - 1);
    }
    vstd::utf8::valid_utf8_split(near, tail_at);
}


/// The findings a single comparison raises on its own.
#[derive(Clone, Copy, Debug, PartialEq, Eq, Structural)]
pub enum ComparisonFindingKind {
    ExplicitReferenceRemoved,
    ObservationCorrelationAmbiguous,
    DependencyChangedSubjectUnchanged,
    DependencyAndSubjectCochanged,
    SubjectChanged,
}

/// What a comparison raises, and the side it is located on: nothing without
/// an observation; otherwise, at the candidate's observation if there is one
/// and else at the base's, a removal when nothing was paired and no candidate
/// remains, an ambiguity when the pairing was ambiguous, and else the three
/// named impacts.
pub open spec fn comparison_finding_of(outcome: Outcome, impact: Impact, has_base: bool, has_candidate: bool) -> Option<(ComparisonFindingKind, LocationSide)> {
    if !has_base && !has_candidate {
        None
    } else {
        let side = if has_candidate { LocationSide::Candidate } else { LocationSide::Base };
        let kind = if outcome == Outcome::Unmatched && !has_candidate {
            Some(ComparisonFindingKind::ExplicitReferenceRemoved)
        } else if outcome == Outcome::Ambiguous {
            Some(ComparisonFindingKind::ObservationCorrelationAmbiguous)
        } else {
            match impact {
                Impact::DependencyChangedSubjectUnchanged => Some(ComparisonFindingKind::DependencyChangedSubjectUnchanged),
                Impact::DependencyAndSubjectCochanged => Some(ComparisonFindingKind::DependencyAndSubjectCochanged),
                Impact::SubjectChanged => Some(ComparisonFindingKind::SubjectChanged),
                _ => None,
            }
        };
        match kind {
            Some(k) => Some((k, side)),
            None => None,
        }
    }
}

/// What a comparison raises on its own, and where.
pub fn comparison_finding(outcome: Outcome, impact: Impact, has_base: bool, has_candidate: bool) -> (r: Option<(ComparisonFindingKind, LocationSide)>)
    ensures
        r == comparison_finding_of(outcome, impact, has_base, has_candidate),
{
    if !has_base && !has_candidate {
        return None;
    }
    let side = if has_candidate {
        LocationSide::Candidate
    } else {
        LocationSide::Base
    };
    let kind = if outcome == Outcome::Unmatched && !has_candidate {
        Some(ComparisonFindingKind::ExplicitReferenceRemoved)
    } else if outcome == Outcome::Ambiguous {
        Some(ComparisonFindingKind::ObservationCorrelationAmbiguous)
    } else {
        match impact {
            Impact::DependencyChangedSubjectUnchanged => Some(ComparisonFindingKind::DependencyChangedSubjectUnchanged),
            Impact::DependencyAndSubjectCochanged => Some(ComparisonFindingKind::DependencyAndSubjectCochanged),
            Impact::SubjectChanged => Some(ComparisonFindingKind::SubjectChanged),
            _ => None,
        }
    };
    match kind {
        Some(k) => Some((k, side)),
        None => None,
    }
}

/// A base-only reference that nothing paired is reported removed, at the
/// base, whatever its impact.
pub proof fn lemma_unpaired_base_is_removed(impact: Impact)
    ensures
        comparison_finding_of(Outcome::Unmatched, impact, true, false) == Some(
            (ComparisonFindingKind::ExplicitReferenceRemoved, LocationSide::Base),
        ),
{
}

} // verus!
