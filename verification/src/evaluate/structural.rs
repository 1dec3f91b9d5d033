//! Structural findings: the structural kinds of reference failures aggregate
//! by finding key across both sides, one finding per key. A base occurrence
//! the correlator paired with a candidate failing the same way joins that
//! candidate's key, so a reworded block or a renamed document keeps its
//! failure pre-existing.

use vstd::prelude::*;

use crate::evaluate::{Attribution, ReferenceFindingKind};
use crate::feedback::LocationSide;
use crate::order::{insert_sorted, listing, lemma_is_listing, sorts_before, sorts_before_bytes, strictly_sorted, views};
use crate::tree::copy_bytes;
use crate::bytes::same_bytes;

verus! {

/// One observation as the aggregation reads it: its identity, where it sits,
/// the structural kind its resolution raises if any, the digest of its
/// structural finding key, and the shape of its failure (what failed, without
/// hints or the target's content).
pub struct StructuralMember {
    pub id: Vec<u8>,
    pub document: Vec<u8>,
    pub span: (usize, usize),
    pub kind: Option<ReferenceFindingKind>,
    pub key: Vec<u8>,
    pub shape: Vec<u8>,
}

/// A member as values.
pub struct MemberView {
    pub id: Seq<u8>,
    pub document: Seq<u8>,
    pub span: (usize, usize),
    pub kind: Option<ReferenceFindingKind>,
    pub key: Seq<u8>,
    pub shape: Seq<u8>,
}

impl View for StructuralMember {
    type V = MemberView;

    open spec fn view(&self) -> MemberView {
        MemberView {
            id: self.id@,
            document: self.document@,
            span: self.span,
            kind: self.kind,
            key: self.key@,
            shape: self.shape@,
        }
    }
}

/// What one comparison contributes: whether it continued a base observation
/// into a candidate (an exact or candidate pair), its pair, and the
/// alternatives on each side.
pub struct ComparisonFacts {
    pub continued: bool,
    pub base: Option<StructuralMember>,
    pub candidate: Option<StructuralMember>,
    pub alternatives_base: Vec<StructuralMember>,
    pub alternatives_candidate: Vec<StructuralMember>,
}

/// One observation placed in a group: the group's key, the kind it was
/// placed under, its side, and the observation.
pub struct Placed {
    pub key: Seq<u8>,
    pub kind: ReferenceFindingKind,
    pub base: bool,
    pub member: MemberView,
}

pub open spec fn opt_view(m: Option<StructuralMember>) -> Option<MemberView> {
    match m {
        Some(x) => Some(x@),
        None => None,
    }
}

pub open spec fn member_views(v: Seq<StructuralMember>) -> Seq<MemberView> {
    v.map_values(|m: StructuralMember| m@)
}

/// A member placed under its own key, where its resolution raises a
/// structural kind.
pub open spec fn place(s: Seq<Placed>, m: MemberView, base: bool) -> Seq<Placed> {
    match m.kind {
        Some(k) => s.push(Placed { key: m.key, kind: k, base, member: m }),
        None => s,
    }
}

pub open spec fn place_all(s: Seq<Placed>, ms: Seq<MemberView>, base: bool) -> Seq<Placed>
    decreases ms.len(),
{
    if ms.len() == 0 {
        s
    } else {
        place(place_all(s, ms.drop_last(), base), ms.last(), base)
    }
}

/// The kind a group was opened under: that of the first observation placed
/// under its key.
pub open spec fn group_kind(s: Seq<Placed>, key: Seq<u8>) -> Option<ReferenceFindingKind>
    decreases s.len(),
{
    if s.len() == 0 {
        None
    } else {
        match group_kind(s.drop_last(), key) {
            Some(k) => Some(k),
            None => if s.last().key == key {
                Some(s.last().kind)
            } else {
                None
            },
        }
    }
}

/// The key a continued candidate opened, if any.
pub open spec fn continued_key(continued: bool, candidate: Option<MemberView>) -> Option<Seq<u8>> {
    match candidate {
        Some(m) => if continued && m.kind is Some {
            Some(m.key)
        } else {
            None
        },
        None => None,
    }
}

/// What one comparison places: its candidate, its candidate alternatives, its
/// base (joining the continued candidate's group where the group's kind is
/// the base's kind), and its base alternatives.
pub open spec fn place_comparison(
    s: Seq<Placed>,
    continued: bool,
    base: Option<MemberView>,
    candidate: Option<MemberView>,
    alt_base: Seq<MemberView>,
    alt_candidate: Seq<MemberView>,
) -> Seq<Placed> {
    let s1 = match candidate {
        Some(m) => place(s, m, false),
        None => s,
    };
    let s2 = place_all(s1, alt_candidate, false);
    let s3 = match base {
        None => s2,
        Some(b) => match (continued_key(continued, candidate), b.kind) {
            (Some(k), Some(bk)) => if group_kind(s2, k) == Some(bk) {
                s2.push(Placed { key: k, kind: bk, base: true, member: b })
            } else {
                place(s2, b, true)
            },
            _ => place(s2, b, true),
        },
    };
    place_all(s3, alt_base, true)
}

pub open spec fn comparison_placed(s: Seq<Placed>, c: ComparisonFacts) -> Seq<Placed> {
    place_comparison(
        s,
        c.continued,
        opt_view(c.base),
        opt_view(c.candidate),
        member_views(c.alternatives_base@),
        member_views(c.alternatives_candidate@),
    )
}

/// Everything the comparisons place, in order.
pub open spec fn placed_all(cs: Seq<ComparisonFacts>) -> Seq<Placed>
    decreases cs.len(),
{
    if cs.len() == 0 {
        seq![]
    } else {
        comparison_placed(placed_all(cs.drop_last()), cs.last())
    }
}

/// The members placed under `key` on one side, in the order they were placed.
pub open spec fn members_of(s: Seq<Placed>, key: Seq<u8>, base: bool) -> Seq<MemberView>
    decreases s.len(),
{
    if s.len() == 0 {
        seq![]
    } else if s.last().key == key && s.last().base == base {
        members_of(s.drop_last(), key, base).push(s.last().member)
    } else {
        members_of(s.drop_last(), key, base)
    }
}

/// The keys anything was placed under.
pub open spec fn placed_keys(s: Seq<Placed>) -> Set<Seq<u8>> {
    Set::new(|k: Seq<u8>| exists|i: int| 0 <= i < s.len() && #[trigger] s[i].key == k)
}

/// How a group is attributed: introduced where only the candidate fails,
/// resolved where only the base does, pre-existing where both fail as often
/// and in the same shape, unknown otherwise.
pub open spec fn attribution_for(b: Seq<MemberView>, c: Seq<MemberView>) -> Attribution {
    if b.len() == 0 && c.len() > 0 {
        Attribution::Introduced
    } else if b.len() > 0 && c.len() == 0 {
        Attribution::Resolved
    } else if b.len() > 0 && c.len() > 0 {
        if b.len() == c.len() && b[0].shape == c[0].shape {
            Attribution::PreExisting
        } else {
            Attribution::Unknown
        }
    } else {
        Attribution::NotApplicable
    }
}

/// Whether member `a` sorts before member `b` by document, span, then id.
pub open spec fn member_before(a: MemberView, b: MemberView) -> bool {
    ||| sorts_before(a.document, b.document)
    ||| (a.document == b.document && (a.span.0 < b.span.0 || (a.span.0 == b.span.0 && (a.span.1
        < b.span.1 || (a.span.1 == b.span.1 && sorts_before(a.id, b.id))))))
}

/// Whether position `i` holds a least member of `ms`.
pub open spec fn least_at(ms: Seq<MemberView>, i: int) -> bool {
    &&& 0 <= i < ms.len()
    &&& forall|j: int| 0 <= j < ms.len() ==> !member_before(#[trigger] ms[j], ms[i])
}

/// One structural finding, with its members reported from the candidate side
/// where it has any there and from the base side otherwise.
pub struct StructuralFinding {
    pub key: Vec<u8>,
    pub kind: ReferenceFindingKind,
    pub attribution: Attribution,
    pub base_members: u64,
    pub candidate_members: u64,
    pub side: LocationSide,
    pub member_count: u64,
    pub observation_ids: Vec<Vec<u8>>,
    pub location_document: Vec<u8>,
    pub location_span: (usize, usize),
}

/// The members a group reports: its candidate members where it has any, its
/// base members otherwise.
pub open spec fn reported_of(s: Seq<Placed>, key: Seq<u8>) -> Seq<MemberView> {
    if members_of(s, key, false).len() == 0 {
        members_of(s, key, true)
    } else {
        members_of(s, key, false)
    }
}

/// The side a group reports from.
pub open spec fn side_of(s: Seq<Placed>, key: Seq<u8>) -> LocationSide {
    if members_of(s, key, false).len() == 0 {
        LocationSide::Base
    } else {
        LocationSide::Candidate
    }
}

/// Whether `f` is the finding of the group under `key`.
pub open spec fn finding_for(f: StructuralFinding, s: Seq<Placed>, key: Seq<u8>) -> bool {
    &&& f.key@ == key
    &&& Some(f.kind) == group_kind(s, key)
    &&& f.attribution == attribution_for(members_of(s, key, true), members_of(s, key, false))
    &&& f.base_members == members_of(s, key, true).len()
    &&& f.candidate_members == members_of(s, key, false).len()
    &&& f.side == side_of(s, key)
    &&& f.member_count == reported_of(s, key).len()
    &&& views(f.observation_ids@) == listing(reported_of(s, key).map_values(|m: MemberView| m.id).to_set())
    &&& exists|i: int| #[trigger] least_at(reported_of(s, key), i) && reported_of(s, key)[i].document
        == f.location_document@ && reported_of(s, key)[i].span == f.location_span
}

proof fn lemma_member_before_irreflexive(a: MemberView)
    ensures
        !member_before(a, a),
{
    crate::order::lemma_sorts_before_irreflexive(a.document);
    crate::order::lemma_sorts_before_irreflexive(a.id);
}

proof fn lemma_member_before_transitive(a: MemberView, b: MemberView, c: MemberView)
    requires
        member_before(a, b),
        member_before(b, c),
    ensures
        member_before(a, c),
{
    if sorts_before(a.document, b.document) && sorts_before(b.document, c.document) {
        crate::order::lemma_sorts_before_transitive(a.document, b.document, c.document);
    }
    if a.document == b.document && b.document == c.document && a.span == b.span && b.span == c.span {
        if sorts_before(a.id, b.id) && sorts_before(b.id, c.id) {
            crate::order::lemma_sorts_before_transitive(a.id, b.id, c.id);
        }
    }
}

/// A placed observation as the code keeps it.
pub struct PlacedMember {
    pub key: Vec<u8>,
    pub kind: ReferenceFindingKind,
    pub base: bool,
    pub member: StructuralMember,
}

impl View for PlacedMember {
    type V = Placed;

    open spec fn view(&self) -> Placed {
        Placed { key: self.key@, kind: self.kind, base: self.base, member: self.member@ }
    }
}

pub open spec fn placed_views(v: Seq<PlacedMember>) -> Seq<Placed> {
    v.map_values(|p: PlacedMember| p@)
}

fn copy_member(m: &StructuralMember) -> (r: StructuralMember)
    ensures
        r@ == m@,
{
    StructuralMember {
        id: copy_bytes(m.id.as_slice()),
        document: copy_bytes(m.document.as_slice()),
        span: m.span,
        kind: m.kind,
        key: copy_bytes(m.key.as_slice()),
        shape: copy_bytes(m.shape.as_slice()),
    }
}

fn push_placed(v: &mut Vec<PlacedMember>, p: PlacedMember)
    ensures
        placed_views(final(v)@) == placed_views(old(v)@).push(p@),
{
    let ghost before = v@;
    v.push(p);
    assert(placed_views(v@) =~= placed_views(before).push(p@));
}

fn place_exec(v: &mut Vec<PlacedMember>, m: &StructuralMember, base: bool)
    ensures
        placed_views(final(v)@) == place(placed_views(old(v)@), m@, base),
{
    match m.kind {
        Some(k) => {
            let key = copy_bytes(m.key.as_slice());
            let member = copy_member(m);
            push_placed(v, PlacedMember { key, kind: k, base, member });
        },
        None => {},
    }
}

fn place_all_exec(v: &mut Vec<PlacedMember>, ms: &Vec<StructuralMember>, base: bool)
    ensures
        placed_views(final(v)@) == place_all(placed_views(old(v)@), member_views(ms@), base),
{
    let ghost start = placed_views(v@);
    let mut i: usize = 0;
    while i < ms.len()
        invariant
            i <= ms@.len(),
            placed_views(v@) == place_all(start, member_views(ms@.take(i as int)), base),
        decreases ms@.len() - i,
    {
        proof {
            assert(member_views(ms@.take(i + 1)).drop_last() =~= member_views(ms@.take(i as int)));
            assert(member_views(ms@.take(i + 1)).last() == ms@[i as int]@);
        }
        place_exec(v, &ms[i], base);
        i = i + 1;
    }
    proof {
        assert(ms@.take(ms@.len() as int) =~= ms@);
    }
}

proof fn lemma_group_kind_push(s: Seq<Placed>, p: Placed, key: Seq<u8>)
    ensures
        group_kind(s.push(p), key) == (match group_kind(s, key) {
            Some(k) => Some(k),
            None => if p.key == key { Some(p.kind) } else { None },
        }),
{
    assert(s.push(p).drop_last() =~= s);
}

fn group_kind_exec(v: &Vec<PlacedMember>, key: &Vec<u8>) -> (r: Option<ReferenceFindingKind>)
    ensures
        r == group_kind(placed_views(v@), key@),
{
    let mut i: usize = 0;
    let mut found: Option<ReferenceFindingKind> = None;
    while i < v.len()
        invariant
            i <= v@.len(),
            found == group_kind(placed_views(v@).take(i as int), key@),
        decreases v@.len() - i,
    {
        proof {
            assert(placed_views(v@).take(i + 1) =~= placed_views(v@).take(i as int).push(v@[i as int]@));
            lemma_group_kind_push(placed_views(v@).take(i as int), v@[i as int]@, key@);
        }
        if found.is_none() && same_bytes(v[i].key.as_slice(), key.as_slice()) {
            found = Some(v[i].kind);
        }
        i = i + 1;
    }
    proof {
        assert(placed_views(v@).take(v@.len() as int) =~= placed_views(v@));
    }
    found
}

fn place_comparison_exec(v: &mut Vec<PlacedMember>, c: &ComparisonFacts)
    ensures
        placed_views(final(v)@) == comparison_placed(placed_views(old(v)@), *c),
{
    match &c.candidate {
        Some(m) => place_exec(v, m, false),
        None => {},
    }
    place_all_exec(v, &c.alternatives_candidate, false);
    match &c.base {
        None => {},
        Some(b) => {
            let continued = match &c.candidate {
                Some(m) => if c.continued && m.kind.is_some() {
                    Some(copy_bytes(m.key.as_slice()))
                } else {
                    None
                },
                None => None,
            };
            match (continued, b.kind) {
                (Some(k), Some(bk)) => {
                    let gk = group_kind_exec(v, &k);
                    if gk == Some(bk) {
                        let member = copy_member(b);
                        push_placed(v, PlacedMember { key: k, kind: bk, base: true, member });
                    } else {
                        place_exec(v, b, true);
                    }
                },
                _ => place_exec(v, b, true),
            }
        },
    }
    place_all_exec(v, &c.alternatives_base, true);
}

fn place_everything(cs: &Vec<ComparisonFacts>) -> (v: Vec<PlacedMember>)
    ensures
        placed_views(v@) == placed_all(cs@),
{
    let mut v: Vec<PlacedMember> = Vec::new();
    let mut i: usize = 0;
    assert(placed_views(v@) =~= placed_all(cs@.take(0)));
    while i < cs.len()
        invariant
            i <= cs@.len(),
            placed_views(v@) == placed_all(cs@.take(i as int)),
        decreases cs@.len() - i,
    {
        proof {
            assert(cs@.take(i + 1).drop_last() =~= cs@.take(i as int));
            assert(cs@.take(i + 1).last() == cs@[i as int]);
        }
        place_comparison_exec(&mut v, &cs[i]);
        i = i + 1;
    }
    proof {
        assert(cs@.take(cs@.len() as int) =~= cs@);
    }
    v
}

proof fn lemma_placed_keys_push(s: Seq<Placed>, p: Placed)
    ensures
        placed_keys(s.push(p)) == placed_keys(s).insert(p.key),
{
    let t = s.push(p);
    assert forall|k: Seq<u8>| placed_keys(t).contains(k) <==> placed_keys(s).insert(p.key).contains(k) by {
        if placed_keys(t).contains(k) {
            let i = choose|i: int| 0 <= i < t.len() && #[trigger] t[i].key == k;
            if i < s.len() {
                assert(s[i].key == k);
            }
        }
        if placed_keys(s).insert(p.key).contains(k) {
            if k == p.key {
                assert(t[s.len() as int].key == k);
            } else {
                let i = choose|i: int| 0 <= i < s.len() && #[trigger] s[i].key == k;
                assert(t[i].key == k);
            }
        }
    }
    assert(placed_keys(t) =~= placed_keys(s).insert(p.key));
}

/// The keys of everything placed, in byte order.
fn group_keys(v: &Vec<PlacedMember>) -> (keys: Vec<Vec<u8>>)
    ensures
        views(keys@) == listing(placed_keys(placed_views(v@))),
        strictly_sorted(views(keys@)),
        views(keys@).to_set() == placed_keys(placed_views(v@)),
{
    let ghost s = placed_views(v@);
    let mut keys: Vec<Vec<u8>> = Vec::new();
    let mut i: usize = 0;
    assert(placed_keys(s.take(0)) =~= Set::empty());
    assert(views(keys@).to_set() =~= Set::empty());
    while i < v.len()
        invariant
            i <= v@.len(),
            s == placed_views(v@),
            strictly_sorted(views(keys@)),
            views(keys@).to_set() == placed_keys(s.take(i as int)),
        decreases v@.len() - i,
    {
        proof {
            assert(s.take(i + 1) =~= s.take(i as int).push(s[i as int]));
            lemma_placed_keys_push(s.take(i as int), s[i as int]);
        }
        insert_sorted(&mut keys, &v[i].key);
        i = i + 1;
    }
    proof {
        assert(s.take(v@.len() as int) =~= s);
        lemma_is_listing(views(keys@), placed_keys(s));
    }
    keys
}

proof fn lemma_members_push(s: Seq<Placed>, p: Placed, key: Seq<u8>, base: bool)
    ensures
        members_of(s.push(p), key, base) == (if p.key == key && p.base == base {
            members_of(s, key, base).push(p.member)
        } else {
            members_of(s, key, base)
        }),
{
    assert(s.push(p).drop_last() =~= s);
}

/// The positions of the members placed under `key` on one side, in order.
fn members_exec(v: &Vec<PlacedMember>, key: &Vec<u8>, base: bool) -> (r: Vec<usize>)
    ensures
        forall|j: int| 0 <= j < r@.len() ==> #[trigger] r@[j] < v@.len(),
        r@.map_values(|p: usize| v@[p as int].member@) == members_of(placed_views(v@), key@, base),
{
    let ghost s = placed_views(v@);
    let mut r: Vec<usize> = Vec::new();
    let mut i: usize = 0;
    while i < v.len()
        invariant
            i <= v@.len(),
            s == placed_views(v@),
            forall|j: int| 0 <= j < r@.len() ==> #[trigger] r@[j] < i,
            r@.map_values(|p: usize| v@[p as int].member@) == members_of(s.take(i as int), key@, base),
        decreases v@.len() - i,
    {
        proof {
            assert(s.take(i + 1) =~= s.take(i as int).push(s[i as int]));
            lemma_members_push(s.take(i as int), s[i as int], key@, base);
        }
        let ghost before = r@;
        if v[i].base == base && same_bytes(v[i].key.as_slice(), key.as_slice()) {
            r.push(i);
            assert(r@.map_values(|p: usize| v@[p as int].member@) =~= before.map_values(|p: usize| v@[p as int].member@).push(v@[i as int].member@));
        }
        i = i + 1;
    }
    proof {
        assert(s.take(v@.len() as int) =~= s);
    }
    r
}

fn member_before_exec(a: &StructuralMember, b: &StructuralMember) -> (r: bool)
    ensures
        r == member_before(a@, b@),
{
    if sorts_before_bytes(&a.document, &b.document) {
        return true;
    }
    if !same_bytes(a.document.as_slice(), b.document.as_slice()) {
        return false;
    }
    if a.span.0 != b.span.0 {
        return a.span.0 < b.span.0;
    }
    if a.span.1 != b.span.1 {
        return a.span.1 < b.span.1;
    }
    sorts_before_bytes(&a.id, &b.id)
}

proof fn lemma_group_kind_present(s: Seq<Placed>, key: Seq<u8>)
    requires
        placed_keys(s).contains(key),
    ensures
        group_kind(s, key) is Some,
    decreases s.len(),
{
    let i = choose|i: int| 0 <= i < s.len() && #[trigger] s[i].key == key;
    let d = s.drop_last();
    if i < s.len() - 1 {
        assert(d[i].key == key);
        lemma_group_kind_present(d, key);
    }
}

proof fn lemma_members_nonempty(s: Seq<Placed>, key: Seq<u8>)
    requires
        placed_keys(s).contains(key),
    ensures
        members_of(s, key, true).len() + members_of(s, key, false).len() > 0,
    decreases s.len(),
{
    let i = choose|i: int| 0 <= i < s.len() && #[trigger] s[i].key == key;
    let d = s.drop_last();
    if i < s.len() - 1 {
        assert(d[i].key == key);
        lemma_members_nonempty(d, key);
    }
}

/// One group's finding.
fn group_finding(v: &Vec<PlacedMember>, key: &Vec<u8>) -> (f: StructuralFinding)
    requires
        placed_keys(placed_views(v@)).contains(key@),
    ensures
        finding_for(f, placed_views(v@), key@),
{
    let ghost s = placed_views(v@);
    let b = members_exec(v, key, true);
    let c = members_exec(v, key, false);
    let ghost bs = members_of(s, key@, true);
    let ghost cs = members_of(s, key@, false);
    let kind = match group_kind_exec(v, key) {
        Some(k) => k,
        None => {
            proof {
                lemma_group_kind_present(s, key@);
            }
            ReferenceFindingKind::ExplicitTargetMissing
        },
    };
    let attribution = if b.len() == 0 && c.len() > 0 {
        Attribution::Introduced
    } else if b.len() > 0 && c.len() == 0 {
        Attribution::Resolved
    } else if b.len() > 0 && c.len() > 0 {
        proof {
            assert(bs[0] == v@[b@[0] as int].member@);
            assert(cs[0] == v@[c@[0] as int].member@);
        }
        if b.len() == c.len() && same_bytes(v[b[0]].member.shape.as_slice(), v[c[0]].member.shape.as_slice()) {
            Attribution::PreExisting
        } else {
            Attribution::Unknown
        }
    } else {
        Attribution::NotApplicable
    };
    let base_count = b.len() as u64;
    let candidate_count = c.len() as u64;
    assert(b@.map_values(|p: usize| v@[p as int].member@).len() == b@.len());
    assert(c@.map_values(|p: usize| v@[p as int].member@).len() == c@.len());
    let (reported, side) = if c.len() == 0 {
        (b, LocationSide::Base)
    } else {
        (c, LocationSide::Candidate)
    };
    let ghost rs = reported_of(s, key@);
    assert(reported@.map_values(|p: usize| v@[p as int].member@) == rs);
    let mut ids: Vec<Vec<u8>> = Vec::new();
    let mut j: usize = 0;
    assert(views(ids@).to_set() =~= rs.take(0).map_values(|m: MemberView| m.id).to_set());
    while j < reported.len()
        invariant
            j <= reported@.len(),
            forall|x: int| 0 <= x < reported@.len() ==> #[trigger] reported@[x] < v@.len(),
            reported@.map_values(|p: usize| v@[p as int].member@) == rs,
            strictly_sorted(views(ids@)),
            views(ids@).to_set() == rs.take(j as int).map_values(|m: MemberView| m.id).to_set(),
        decreases reported@.len() - j,
    {
        proof {
            let prev = rs.take(j as int).map_values(|m: MemberView| m.id);
            let next = rs.take(j + 1).map_values(|m: MemberView| m.id);
            assert(next =~= prev.push(v@[reported@[j as int] as int].member@.id));
            crate::order::lemma_push_to_set(prev, v@[reported@[j as int] as int].member@.id);
        }
        insert_sorted(&mut ids, &v[reported[j]].member.id);
        j = j + 1;
    }
    proof {
        assert(rs.take(rs.len() as int) =~= rs);
        lemma_is_listing(views(ids@), rs.map_values(|m: MemberView| m.id).to_set());
        lemma_members_nonempty(s, key@);
    }
    let mut best: usize = 0;
    let mut k: usize = 1;
    proof {
        lemma_member_before_irreflexive(rs[0]);
    }
    while k < reported.len()
        invariant
            0 < reported@.len(),
            best < k <= reported@.len(),
            forall|x: int| 0 <= x < reported@.len() ==> #[trigger] reported@[x] < v@.len(),
            reported@.map_values(|p: usize| v@[p as int].member@) == rs,
            forall|x: int| 0 <= x < k ==> !member_before(#[trigger] rs[x], rs[best as int]),
        decreases reported@.len() - k,
    {
        assert(rs[k as int] == v@[reported@[k as int] as int].member@);
        assert(rs[best as int] == v@[reported@[best as int] as int].member@);
        if member_before_exec(&v[reported[k]].member, &v[reported[best]].member) {
            proof {
                assert forall|x: int| 0 <= x < k + 1 implies !member_before(#[trigger] rs[x], rs[k as int]) by {
                    if x == k {
                        lemma_member_before_irreflexive(rs[k as int]);
                    } else if member_before(rs[x], rs[k as int]) {
                        lemma_member_before_transitive(rs[x], rs[k as int], rs[best as int]);
                    }
                }
            }
            best = k;
        }
        k = k + 1;
    }
    assert(rs[best as int] == v@[reported@[best as int] as int].member@);
    assert(least_at(rs, best as int));
    let location = &v[reported[best]].member;
    let f = StructuralFinding {
        key: copy_bytes(key.as_slice()),
        kind,
        attribution,
        base_members: base_count,
        candidate_members: candidate_count,
        side,
        member_count: reported.len() as u64,
        observation_ids: ids,
        location_document: copy_bytes(location.document.as_slice()),
        location_span: location.span,
    };
    assert(least_at(reported_of(s, key@), best as int));
    f
}

/// Every structural finding the comparisons raise, one per finding key in
/// byte order: each key any observation was placed under, its attribution
/// from how often and in what shape each side fails there, and its members
/// reported from the candidate side where it has any.
pub fn structural_findings(comparisons: &Vec<ComparisonFacts>) -> (r: Vec<StructuralFinding>)
    ensures
        r@.len() == listing(placed_keys(placed_all(comparisons@))).len(),
        forall|i: int|
            0 <= i < r@.len() ==> finding_for(
                #[trigger] r@[i],
                placed_all(comparisons@),
                listing(placed_keys(placed_all(comparisons@)))[i],
            ),
{
    let placed = place_everything(comparisons);
    let keys = group_keys(&placed);
    let ghost s = placed_views(placed@);
    let ghost ks = listing(placed_keys(s));
    let mut out: Vec<StructuralFinding> = Vec::new();
    let mut i: usize = 0;
    while i < keys.len()
        invariant
            i <= keys@.len(),
            s == placed_views(placed@),
            s == placed_all(comparisons@),
            views(keys@) == ks,
            ks == listing(placed_keys(s)),
            strictly_sorted(ks) && ks.to_set() == placed_keys(s),
            out@.len() == i,
            forall|x: int| 0 <= x < i ==> finding_for(#[trigger] out@[x], s, ks[x]),
        decreases keys@.len() - i,
    {
        proof {
            assert(ks[i as int] == keys@[i as int]@);
            assert(ks.to_set().contains(ks[i as int]));
        }
        let f = group_finding(&placed, &keys[i]);
        out.push(f);
        i = i + 1;
    }
    out
}

/// The finding keys of the observations whose resolutions raise a
/// structural kind, in order.
pub open spec fn structural_keys(ms: Seq<MemberView>) -> Seq<Seq<u8>>
    decreases ms.len(),
{
    if ms.len() == 0 {
        seq![]
    } else if ms.last().kind is Some {
        structural_keys(ms.drop_last()).push(ms.last().key)
    } else {
        structural_keys(ms.drop_last())
    }
}

/// Every structural finding key among the observations of one side, in byte
/// order, with how many observations share it: exactly one occurrence is
/// what reproducing an accepted finding requires.
pub fn structural_facts(observations: &Vec<StructuralMember>) -> (r: Vec<(Vec<u8>, u64)>)
    ensures
        crate::claim::groups::multiplicities_ok(structural_keys(member_views(observations@)), r@),
{
    let mut keys: Vec<Vec<u8>> = Vec::new();
    let mut i: usize = 0;
    while i < observations.len()
        invariant
            i <= observations@.len(),
            views(keys@) == structural_keys(member_views(observations@.take(i as int))),
        decreases observations@.len() - i,
    {
        proof {
            assert(member_views(observations@.take(i + 1)).drop_last() =~= member_views(observations@.take(i as int)));
            assert(member_views(observations@.take(i + 1)).last() == observations@[i as int]@);
        }
        if observations[i].kind.is_some() {
            let ghost before = keys@;
            keys.push(copy_bytes(observations[i].key.as_slice()));
            assert(views(keys@) =~= views(before).push(observations@[i as int].key@));
        }
        i = i + 1;
    }
    proof {
        assert(observations@.take(observations@.len() as int) =~= observations@);
    }
    crate::claim::groups::source_multiplicities(&keys)
}

/// A base observation the correlator continued into a candidate that fails
/// under the same kind joins the candidate's key, whatever key it had itself,
/// so the failure is one group with a member on each side.
pub proof fn lemma_continued_base_joins_candidate(b: MemberView, c: MemberView, k: ReferenceFindingKind)
    requires
        b.kind == Some(k),
        c.kind == Some(k),
    ensures
        place_comparison(seq![], true, Some(b), Some(c), seq![], seq![]) == seq![
            Placed { key: c.key, kind: k, base: false, member: c },
            Placed { key: c.key, kind: k, base: true, member: b },
        ],
{
    let s1 = seq![Placed { key: c.key, kind: k, base: false, member: c }];
    assert(Seq::<Placed>::empty().push(s1[0]) =~= s1);
    assert(s1.drop_last() =~= Seq::<Placed>::empty());
    assert(group_kind(s1.drop_last(), c.key) is None);
    assert(s1.last().key == c.key);
    assert(group_kind(s1, c.key) == Some(k));
    assert(s1.push(Placed { key: c.key, kind: k, base: true, member: b }) =~= seq![
        Placed { key: c.key, kind: k, base: false, member: c },
        Placed { key: c.key, kind: k, base: true, member: b },
    ]);
}

} // verus!
