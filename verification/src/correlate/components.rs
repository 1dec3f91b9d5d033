//! Correlation of the two sides' observations: exact pairs by equal
//! identity, then the connected components of the plausible pairs among the
//! rest, one comparison per component, in identity byte order.

use crate::bytes::same_bytes;
use crate::correlate::{
    Labels, Resolution, ambiguous, ambiguous_spec, candidate_comparison, derive_spec,
    entry_views, exact_comparison, isolated, isolated_spec, pair_reason_spec, paths_distinct,
    renamed, unique_path_pairs, Outcome, Reason, SourceChange,
};
use crate::order::{sorts_before, sorts_before_bytes};
use vstd::prelude::*;

verus! {

/// One occurrence of a reference as correlation reads it: its identity, the
/// document it sits in, its correlation key (adapter, construct and the
/// correlation projection of its intent), the digest of its projection, and
/// how it resolved.
pub struct Observation {
    pub id: Vec<u8>,
    pub document: Vec<u8>,
    pub key: Vec<u8>,
    pub projection: Vec<u8>,
    pub resolution: Resolution,
}

/// One side of the comparison: its observations, and its documents with the
/// identity of each, by which renames are found.
pub struct Side {
    pub observations: Vec<Observation>,
    pub documents: Vec<(Vec<u8>, Vec<u8>)>,
}

/// One comparison row: its labels, the primary observation of each side and
/// the alternatives, as positions into the sides' observations.
pub struct Comparison {
    pub labels: Labels,
    pub base: Option<usize>,
    pub candidate: Option<usize>,
    pub alternatives_base: Vec<usize>,
    pub alternatives_candidate: Vec<usize>,
}

/// Why the sides cannot be correlated.
#[derive(Clone, Copy, Debug, PartialEq, Eq, Structural)]
pub enum CorrelationError {
    /// One side holds an observation identity twice.
    DuplicateIdentity,
}

/// No identity occurs twice among the observations.
pub open spec fn ids_distinct(o: Seq<Observation>) -> bool {
    forall|i: int, j: int| 0 <= i < j < o.len() ==> (#[trigger] o[i]).id@ != (#[trigger] o[j]).id@
}

/// Whether some observation carries `id`.
pub open spec fn has_id(o: Seq<Observation>, id: Seq<u8>) -> bool {
    exists|k: int| 0 <= k < o.len() && (#[trigger] o[k]).id@ == id
}

/// A node of the correlation graph: an observation of the base side (`true`)
/// or of the candidate side, by position.
pub type Node = (bool, usize);

/// The observation a node stands for.
pub open spec fn obs(b: Side, c: Side, n: Node) -> Observation {
    if n.0 {
        b.observations@[n.1 as int]
    } else {
        c.observations@[n.1 as int]
    }
}

/// Whether a node names an observation whose identity the other side lacks:
/// one left for the components once exact pairs are taken.
pub open spec fn open_node(b: Side, c: Side, n: Node) -> bool {
    if n.0 {
        n.1 < b.observations@.len() && !has_id(c.observations@, b.observations@[n.1 as int].id@)
    } else {
        n.1 < c.observations@.len() && !has_id(b.observations@, c.observations@[n.1 as int].id@)
    }
}

/// A plausible pair: the same correlation key, in the same document, or in
/// a renamed document under the same projection.
pub open spec fn edge(b: Side, c: Side, i: usize, j: usize) -> bool {
    let x = b.observations@[i as int];
    let y = c.observations@[j as int];
    &&& x.key@ == y.key@
    &&& (x.document@ == y.document@ || (renamed(entry_views(b.documents@), entry_views(c.documents@), x.document@, y.document@)
        && x.projection@ == y.projection@))
}

/// Whether two open nodes of different sides form a plausible pair.
pub open spec fn adjacent(b: Side, c: Side, n: Node, m: Node) -> bool {
    &&& open_node(b, c, n)
    &&& open_node(b, c, m)
    &&& n.0 != m.0
    &&& if n.0 {
        edge(b, c, n.1, m.1)
    } else {
        edge(b, c, m.1, n.1)
    }
}

/// A walk of plausible pairs through open nodes.
pub open spec fn is_walk(b: Side, c: Side, p: Seq<Node>) -> bool {
    &&& p.len() > 0
    &&& open_node(b, c, p[0])
    &&& forall|k: int| 0 <= k < p.len() - 1 ==> adjacent(b, c, #[trigger] p[k], p[k + 1])
}

/// Whether a walk leads from `n` to `m`.
pub open spec fn linked(b: Side, c: Side, n: Node, m: Node) -> bool {
    exists|p: Seq<Node>| #[trigger] is_walk(b, c, p) && p[0] == n && p.last() == m
}

/// An open node is linked to itself.
pub proof fn lemma_linked_self(b: Side, c: Side, n: Node)
    requires
        open_node(b, c, n),
    ensures
        linked(b, c, n, n),
{
    let p = seq![n];
    assert(is_walk(b, c, p));
}

/// A walk to `n` goes on to each node `n` pairs with.
pub proof fn lemma_linked_step(b: Side, c: Side, s: Node, n: Node, m: Node)
    requires
        linked(b, c, s, n),
        adjacent(b, c, n, m),
    ensures
        linked(b, c, s, m),
{
    let p = choose|p: Seq<Node>| #[trigger] is_walk(b, c, p) && p[0] == s && p.last() == n;
    let q = p.push(m);
    assert forall|k: int| 0 <= k < q.len() - 1 implies adjacent(b, c, #[trigger] q[k], q[k + 1]) by {
        if k < p.len() - 1 {
            assert(q[k] == p[k] && q[k + 1] == p[k + 1]);
        } else {
            assert(q[k] == n && q[k + 1] == m);
        }
    }
    assert(is_walk(b, c, q));
}

/// The pair relation is symmetric.
pub proof fn lemma_adjacent_symmetric(b: Side, c: Side, n: Node, m: Node)
    requires
        adjacent(b, c, n, m),
    ensures
        adjacent(b, c, m, n),
{
}

/// A walk read backwards is a walk.
pub proof fn lemma_linked_symmetric(b: Side, c: Side, n: Node, m: Node)
    requires
        linked(b, c, n, m),
    ensures
        linked(b, c, m, n),
{
    let p = choose|p: Seq<Node>| #[trigger] is_walk(b, c, p) && p[0] == n && p.last() == m;
    let q = p.reverse();
    assert forall|k: int| 0 <= k < q.len() - 1 implies adjacent(b, c, #[trigger] q[k], q[k + 1]) by {
        let i = p.len() - 1 - k;
        assert(q[k] == p[i] && q[k + 1] == p[i - 1]);
        assert(adjacent(b, c, p[i - 1], p[i]));
        lemma_adjacent_symmetric(b, c, p[i - 1], p[i]);
    }
    if p.len() > 1 {
        assert(adjacent(b, c, p[p.len() - 2], p[p.len() - 1]));
    }
    assert(q[0] == p.last());
    assert(is_walk(b, c, q));
}

/// Two walks that meet make one.
pub proof fn lemma_linked_transitive(b: Side, c: Side, n: Node, m: Node, o: Node)
    requires
        linked(b, c, n, m),
        linked(b, c, m, o),
    ensures
        linked(b, c, n, o),
{
    let p = choose|p: Seq<Node>| #[trigger] is_walk(b, c, p) && p[0] == n && p.last() == m;
    let q = choose|q: Seq<Node>| #[trigger] is_walk(b, c, q) && q[0] == m && q.last() == o;
    let w = p + q.drop_first();
    assert forall|k: int| 0 <= k < w.len() - 1 implies adjacent(b, c, #[trigger] w[k], w[k + 1]) by {
        if k < p.len() - 1 {
            assert(w[k] == p[k] && w[k + 1] == p[k + 1]);
        } else {
            let j = k - (p.len() - 1);
            assert(w[k] == q[j] && w[k + 1] == q[j + 1]);
        }
    }
    assert(is_walk(b, c, w));
    if q.len() == 1 {
        assert(w =~= p);
    } else {
        assert(w.last() == q.last());
    }
}

/// Whether a walk ends at an open node: every node a walk reaches is open.
pub proof fn lemma_linked_open(b: Side, c: Side, n: Node, m: Node)
    requires
        linked(b, c, n, m),
    ensures
        open_node(b, c, n),
        open_node(b, c, m),
{
    let p = choose|p: Seq<Node>| #[trigger] is_walk(b, c, p) && p[0] == n && p.last() == m;
    if p.len() > 1 {
        assert(adjacent(b, c, p[p.len() - 2], p[p.len() - 1]));
    }
}


/// Whether no identity occurs twice among the observations.
fn distinct_ids(o: &Vec<Observation>) -> (r: bool)
    ensures
        r == ids_distinct(o@),
{
    let mut i: usize = 0;
    while i < o.len()
        invariant
            i <= o@.len(),
            forall|x: int, y: int| 0 <= x < y < o@.len() && x < i ==> (#[trigger] o@[x]).id@ != (#[trigger] o@[y]).id@,
        decreases o@.len() - i,
    {
        let mut j: usize = i + 1;
        while j < o.len()
            invariant
                i < j <= o@.len(),
                forall|x: int, y: int| 0 <= x < y < o@.len() && x < i ==> (#[trigger] o@[x]).id@ != (#[trigger] o@[y]).id@,
                forall|y: int| i < y < j ==> o@[i as int].id@ != (#[trigger] o@[y]).id@,
            decreases o@.len() - j,
        {
            if same_bytes(&o[i].id, &o[j].id) {
                return false;
            }
            j = j + 1;
        }
        i = i + 1;
    }
    true
}

/// The position of the observation carrying `id`, if one does.
fn position_of(o: &Vec<Observation>, id: &Vec<u8>) -> (r: Option<usize>)
    ensures
        r matches Some(k) ==> k < o@.len() && o@[k as int].id@ == id@,
        r is None ==> !has_id(o@, id@),
{
    let mut k: usize = 0;
    while k < o.len()
        invariant
            k <= o@.len(),
            forall|m: int| 0 <= m < k ==> (#[trigger] o@[m]).id@ != id@,
        decreases o@.len() - k,
    {
        if same_bytes(&o[k].id, id) {
            return Some(k);
        }
        k = k + 1;
    }
    None
}

/// The renames as found, each pair exactly once per rename relation.
pub open spec fn renames_listed(b: Side, c: Side, pairs: Seq<(Vec<u8>, Vec<u8>)>) -> bool {
    &&& forall|k: int| 0 <= k < pairs.len() ==> renamed(entry_views(b.documents@), entry_views(c.documents@), (#[trigger] pairs[k]).0@, pairs[k].1@)
    &&& forall|from: Seq<u8>, to: Seq<u8>| renamed(entry_views(b.documents@), entry_views(c.documents@), from, to) ==> exists|k: int| 0 <= k < pairs.len() && (#[trigger] pairs[k]).0@ == from && pairs[k].1@ == to
}

/// Whether `from` was renamed to `to`.
fn is_renamed(b: &Side, c: &Side, pairs: &Vec<(Vec<u8>, Vec<u8>)>, from: &Vec<u8>, to: &Vec<u8>) -> (r: bool)
    requires
        renames_listed(*b, *c, pairs@),
    ensures
        r == renamed(entry_views(b.documents@), entry_views(c.documents@), from@, to@),
{
    let mut k: usize = 0;
    while k < pairs.len()
        invariant
            k <= pairs@.len(),
            renames_listed(*b, *c, pairs@),
            forall|m: int| 0 <= m < k ==> !((#[trigger] pairs@[m]).0@ == from@ && pairs@[m].1@ == to@),
        decreases pairs@.len() - k,
    {
        if same_bytes(&pairs[k].0, from) && same_bytes(&pairs[k].1, to) {
            return true;
        }
        k = k + 1;
    }
    false
}

/// Whether base observation `i` and candidate observation `j` form a
/// plausible pair.
fn is_edge(b: &Side, c: &Side, pairs: &Vec<(Vec<u8>, Vec<u8>)>, i: usize, j: usize) -> (r: bool)
    requires
        renames_listed(*b, *c, pairs@),
        i < b.observations@.len(),
        j < c.observations@.len(),
    ensures
        r == edge(*b, *c, i, j),
{
    let x = &b.observations[i];
    let y = &c.observations[j];
    if !same_bytes(&x.key, &y.key) {
        return false;
    }
    if same_bytes(&x.document, &y.document) {
        return true;
    }
    is_renamed(b, c, pairs, &x.document, &y.document) && same_bytes(&x.projection, &y.projection)
}


/// How many flags are set.
pub open spec fn trues(s: Seq<bool>) -> nat
    decreases s.len(),
{
    if s.len() == 0 {
        0
    } else {
        trues(s.drop_last()) + if s.last() { 1nat } else { 0nat }
    }
}

proof fn lemma_trues_bound(s: Seq<bool>)
    ensures
        trues(s) <= s.len(),
    decreases s.len(),
{
    if s.len() > 0 {
        lemma_trues_bound(s.drop_last());
    }
}

proof fn lemma_trues_set(s: Seq<bool>, j: int)
    requires
        0 <= j < s.len(),
        !s[j],
    ensures
        trues(s.update(j, true)) == trues(s) + 1,
    decreases s.len(),
{
    let t = s.update(j, true);
    if j == s.len() - 1 {
        assert(t.drop_last() =~= s.drop_last());
    } else {
        assert(t.drop_last() =~= s.drop_last().update(j, true));
        lemma_trues_set(s.drop_last(), j);
    }
}

/// Whether a node is taken by a component already.
pub open spec fn taken(tb: Seq<bool>, tc: Seq<bool>, n: Node) -> bool {
    if n.0 {
        n.1 < tb.len() && tb[n.1 as int]
    } else {
        n.1 < tc.len() && tc[n.1 as int]
    }
}

/// The taken nodes are open, and every node a taken node pairs with is
/// taken.
pub open spec fn taken_closed(b: Side, c: Side, tb: Seq<bool>, tc: Seq<bool>) -> bool {
    &&& forall|n: Node| #[trigger] taken(tb, tc, n) ==> open_node(b, c, n)
    &&& forall|n: Node, m: Node| taken(tb, tc, n) && #[trigger] adjacent(b, c, n, m) ==> taken(tb, tc, m)
}

/// The flags that say which nodes are open.
pub open spec fn open_flags(b: Side, c: Side, ob: Seq<bool>, oc: Seq<bool>) -> bool {
    &&& ob.len() == b.observations@.len()
    &&& oc.len() == c.observations@.len()
    &&& forall|i: int| 0 <= i < ob.len() ==> #[trigger] ob[i] == open_node(b, c, (true, i as usize))
    &&& forall|j: int| 0 <= j < oc.len() ==> #[trigger] oc[j] == open_node(b, c, (false, j as usize))
}

/// The state of a search from `seed`: the taken flags are the earlier ones
/// plus exactly the queue, whose nodes are new, linked to `seed` and listed
/// once each; the flag count grows with the queue.
pub open spec fn search_state(b: Side, c: Side, seed: Node, tb0: Seq<bool>, tc0: Seq<bool>, tb: Seq<bool>, tc: Seq<bool>, queue: Seq<Node>) -> bool {
    &&& tb.len() == b.observations@.len()
    &&& tc.len() == c.observations@.len()
    &&& tb0.len() == b.observations@.len()
    &&& tc0.len() == c.observations@.len()
    &&& forall|n: Node| #[trigger] taken(tb, tc, n) <==> (taken(tb0, tc0, n) || queue.contains(n))
    &&& forall|k: int| 0 <= k < queue.len() ==> !taken(tb0, tc0, #[trigger] queue[k])
    &&& forall|k: int| 0 <= k < queue.len() ==> linked(b, c, seed, #[trigger] queue[k])
    &&& forall|k1: int, k2: int| 0 <= k1 < k2 < queue.len() ==> #[trigger] queue[k1] != #[trigger] queue[k2]
    &&& trues(tb) + trues(tc) == trues(tb0) + trues(tc0) + queue.len()
}

/// The flags with one more node taken.
pub open spec fn take_flag(tb: Seq<bool>, tc: Seq<bool>, m: Node) -> (Seq<bool>, Seq<bool>) {
    if m.0 {
        (tb.update(m.1 as int, true), tc)
    } else {
        (tb, tc.update(m.1 as int, true))
    }
}

/// Taking a new linked node and queueing it keeps the search state.
proof fn lemma_search_push(b: Side, c: Side, seed: Node, tb0: Seq<bool>, tc0: Seq<bool>, tb: Seq<bool>, tc: Seq<bool>, queue: Seq<Node>, m: Node)
    requires
        search_state(b, c, seed, tb0, tc0, tb, tc, queue),
        open_node(b, c, m),
        linked(b, c, seed, m),
        !taken(tb, tc, m),
    ensures
        search_state(b, c, seed, tb0, tc0, take_flag(tb, tc, m).0, take_flag(tb, tc, m).1, queue.push(m)),
        forall|x: Node| #[trigger] taken(tb, tc, x) ==> taken(take_flag(tb, tc, m).0, take_flag(tb, tc, m).1, x),
        taken(take_flag(tb, tc, m).0, take_flag(tb, tc, m).1, m),
{
    let (tb2, tc2) = take_flag(tb, tc, m);
    let q2 = queue.push(m);
    if m.0 {
        lemma_trues_set(tb, m.1 as int);
    } else {
        lemma_trues_set(tc, m.1 as int);
    }
    assert(q2[q2.len() - 1] == m);
    assert forall|x: Node| #[trigger] taken(tb2, tc2, x) <==> (taken(tb0, tc0, x) || q2.contains(x)) by {
        if x == m {
            assert(taken(tb2, tc2, x));
        } else {
            if x.0 == m.0 {
                assert(x.1 != m.1);
            }
            assert(taken(tb2, tc2, x) == taken(tb, tc, x));
        }
        if queue.contains(x) {
            let w = choose|w: int| 0 <= w < queue.len() && queue[w] == x;
            assert(q2[w] == x);
        }
        if q2.contains(x) && x != m {
            let w = choose|w: int| 0 <= w < q2.len() && q2[w] == x;
            assert(queue[w] == x);
        }
    }
    assert forall|k: int| 0 <= k < q2.len() implies !taken(tb0, tc0, #[trigger] q2[k]) by {
        if k < queue.len() {
            assert(q2[k] == queue[k]);
        }
    }
    assert forall|k: int| 0 <= k < q2.len() implies linked(b, c, seed, #[trigger] q2[k]) by {
        if k < queue.len() {
            assert(q2[k] == queue[k]);
        }
    }
    assert forall|k1: int, k2: int| 0 <= k1 < k2 < q2.len() implies #[trigger] q2[k1] != #[trigger] q2[k2] by {
        assert(q2[k1] == queue[k1]);
        if k2 < queue.len() {
            assert(q2[k2] == queue[k2]);
        } else {
            assert(queue.contains(queue[k1]));
        }
    }
}

/// Every node queued before position `q` has all its pairs taken.
pub open spec fn visited(b: Side, c: Side, tb: Seq<bool>, tc: Seq<bool>, queue: Seq<Node>, q: int) -> bool {
    forall|k: int, m: Node| 0 <= k < q && #[trigger] adjacent(b, c, queue[k], m) ==> taken(tb, tc, m)
}

/// Takes and queues every untaken candidate node that base node `n` pairs
/// with.
fn visit_base(
    b: &Side,
    c: &Side,
    pairs: &Vec<(Vec<u8>, Vec<u8>)>,
    oc: &Vec<bool>,
    tb: &mut Vec<bool>,
    tc: &mut Vec<bool>,
    queue: &mut Vec<(bool, usize)>,
    n: (bool, usize),
    Ghost(seed): Ghost<Node>,
    Ghost(tb0): Ghost<Seq<bool>>,
    Ghost(tc0): Ghost<Seq<bool>>,
)
    requires
        renames_listed(*b, *c, pairs@),
        oc@.len() == c.observations@.len(),
        forall|j: int| 0 <= j < oc@.len() ==> #[trigger] oc@[j] == open_node(*b, *c, (false, j as usize)),
        search_state(*b, *c, seed, tb0, tc0, old(tb)@, old(tc)@, old(queue)@),
        n.0,
        open_node(*b, *c, n),
        linked(*b, *c, seed, n),
    ensures
        search_state(*b, *c, seed, tb0, tc0, final(tb)@, final(tc)@, final(queue)@),
        final(queue)@.len() >= old(queue)@.len(),
        final(queue)@.subrange(0, old(queue)@.len() as int) == old(queue)@,
        forall|x: Node| #[trigger] taken(old(tb)@, old(tc)@, x) ==> taken(final(tb)@, final(tc)@, x),
        forall|m: Node| #[trigger] adjacent(*b, *c, n, m) ==> taken(final(tb)@, final(tc)@, m),
{
    let ghost q0 = queue@;
    let ghost tb1 = tb@;
    let ghost tc1 = tc@;
    let mut j: usize = 0;
    while j < c.observations.len()
        invariant
            renames_listed(*b, *c, pairs@),
            oc@.len() == c.observations@.len(),
            forall|jj: int| 0 <= jj < oc@.len() ==> #[trigger] oc@[jj] == open_node(*b, *c, (false, jj as usize)),
            search_state(*b, *c, seed, tb0, tc0, tb@, tc@, queue@),
            n.0,
            open_node(*b, *c, n),
            linked(*b, *c, seed, n),
            j <= c.observations@.len(),
            queue@.len() >= q0.len(),
            queue@.subrange(0, q0.len() as int) == q0,
            forall|x: Node| #[trigger] taken(tb1, tc1, x) ==> taken(tb@, tc@, x),
            forall|jj: usize| jj < j && #[trigger] adjacent(*b, *c, n, (false, jj)) ==> taken(tb@, tc@, (false, jj)),
        decreases c.observations@.len() - j,
    {
        if oc[j] && !tc[j] && is_edge(b, c, pairs, n.1, j) {
            let m = (false, j);
            proof {
                assert(adjacent(*b, *c, n, m));
                lemma_linked_step(*b, *c, seed, n, m);
                lemma_search_push(*b, *c, seed, tb0, tc0, tb@, tc@, queue@, m);
            }
            let ghost pre = queue@;
            tc.set(j, true);
            queue.push(m);
            assert(queue@.subrange(0, q0.len() as int) =~= pre.subrange(0, q0.len() as int));
        }
        j = j + 1;
    }
    assert forall|m: Node| #[trigger] adjacent(*b, *c, n, m) implies taken(tb@, tc@, m) by {
        assert(!m.0);
        assert(adjacent(*b, *c, n, (false, m.1)));
    }
}

/// Takes and queues every untaken base node that candidate node `n` pairs
/// with.
fn visit_candidate(
    b: &Side,
    c: &Side,
    pairs: &Vec<(Vec<u8>, Vec<u8>)>,
    ob: &Vec<bool>,
    tb: &mut Vec<bool>,
    tc: &mut Vec<bool>,
    queue: &mut Vec<(bool, usize)>,
    n: (bool, usize),
    Ghost(seed): Ghost<Node>,
    Ghost(tb0): Ghost<Seq<bool>>,
    Ghost(tc0): Ghost<Seq<bool>>,
)
    requires
        renames_listed(*b, *c, pairs@),
        ob@.len() == b.observations@.len(),
        forall|i: int| 0 <= i < ob@.len() ==> #[trigger] ob@[i] == open_node(*b, *c, (true, i as usize)),
        search_state(*b, *c, seed, tb0, tc0, old(tb)@, old(tc)@, old(queue)@),
        !n.0,
        open_node(*b, *c, n),
        linked(*b, *c, seed, n),
    ensures
        search_state(*b, *c, seed, tb0, tc0, final(tb)@, final(tc)@, final(queue)@),
        final(queue)@.len() >= old(queue)@.len(),
        final(queue)@.subrange(0, old(queue)@.len() as int) == old(queue)@,
        forall|x: Node| #[trigger] taken(old(tb)@, old(tc)@, x) ==> taken(final(tb)@, final(tc)@, x),
        forall|m: Node| #[trigger] adjacent(*b, *c, n, m) ==> taken(final(tb)@, final(tc)@, m),
{
    let ghost q0 = queue@;
    let ghost tb1 = tb@;
    let ghost tc1 = tc@;
    let mut i: usize = 0;
    while i < b.observations.len()
        invariant
            renames_listed(*b, *c, pairs@),
            ob@.len() == b.observations@.len(),
            forall|ii: int| 0 <= ii < ob@.len() ==> #[trigger] ob@[ii] == open_node(*b, *c, (true, ii as usize)),
            search_state(*b, *c, seed, tb0, tc0, tb@, tc@, queue@),
            !n.0,
            open_node(*b, *c, n),
            linked(*b, *c, seed, n),
            i <= b.observations@.len(),
            queue@.len() >= q0.len(),
            queue@.subrange(0, q0.len() as int) == q0,
            forall|x: Node| #[trigger] taken(tb1, tc1, x) ==> taken(tb@, tc@, x),
            forall|ii: usize| ii < i && #[trigger] adjacent(*b, *c, n, (true, ii)) ==> taken(tb@, tc@, (true, ii)),
        decreases b.observations@.len() - i,
    {
        if ob[i] && !tb[i] && is_edge(b, c, pairs, i, n.1) {
            let m = (true, i);
            proof {
                assert(adjacent(*b, *c, n, m));
                lemma_linked_step(*b, *c, seed, n, m);
                lemma_search_push(*b, *c, seed, tb0, tc0, tb@, tc@, queue@, m);
            }
            let ghost pre = queue@;
            tb.set(i, true);
            queue.push(m);
            assert(queue@.subrange(0, q0.len() as int) =~= pre.subrange(0, q0.len() as int));
        }
        i = i + 1;
    }
    assert forall|m: Node| #[trigger] adjacent(*b, *c, n, m) implies taken(tb@, tc@, m) by {
        assert(m.0);
        assert(adjacent(*b, *c, n, (true, m.1)));
    }
}

/// Everything linked to `seed` that no earlier component took: the new
/// component, with `seed` first, each node once. The taken flags grow by
/// exactly its nodes and stay closed.
fn grow(
    b: &Side,
    c: &Side,
    pairs: &Vec<(Vec<u8>, Vec<u8>)>,
    ob: &Vec<bool>,
    oc: &Vec<bool>,
    tb: &mut Vec<bool>,
    tc: &mut Vec<bool>,
    seed: (bool, usize),
) -> (queue: Vec<(bool, usize)>)
    requires
        renames_listed(*b, *c, pairs@),
        open_flags(*b, *c, ob@, oc@),
        old(tb)@.len() == b.observations@.len(),
        old(tc)@.len() == c.observations@.len(),
        open_node(*b, *c, seed),
        !taken(old(tb)@, old(tc)@, seed),
        taken_closed(*b, *c, old(tb)@, old(tc)@),
    ensures
        final(tb)@.len() == b.observations@.len(),
        final(tc)@.len() == c.observations@.len(),
        queue@.len() > 0,
        queue@[0] == seed,
        forall|n: Node| #[trigger] taken(final(tb)@, final(tc)@, n) <==> (taken(old(tb)@, old(tc)@, n) || queue@.contains(n)),
        forall|k: int| 0 <= k < queue@.len() ==> !taken(old(tb)@, old(tc)@, #[trigger] queue@[k]),
        forall|k: int| 0 <= k < queue@.len() ==> linked(*b, *c, seed, #[trigger] queue@[k]),
        forall|k1: int, k2: int| 0 <= k1 < k2 < queue@.len() ==> #[trigger] queue@[k1] != #[trigger] queue@[k2],
        forall|k: int, m: Node| 0 <= k < queue@.len() && #[trigger] adjacent(*b, *c, queue@[k], m) ==> queue@.contains(m),
        taken_closed(*b, *c, final(tb)@, final(tc)@),
{
    let ghost tb0 = tb@;
    let ghost tc0 = tc@;
    let ghost total = b.observations@.len() + c.observations@.len();
    let mut queue: Vec<(bool, usize)> = Vec::new();
    proof {
        lemma_linked_self(*b, *c, seed);
        assert(search_state(*b, *c, seed, tb0, tc0, tb@, tc@, queue@));
        lemma_search_push(*b, *c, seed, tb0, tc0, tb@, tc@, queue@, seed);
    }
    if seed.0 {
        tb.set(seed.1, true);
    } else {
        tc.set(seed.1, true);
    }
    queue.push(seed);
    let mut q: usize = 0;
    while q < queue.len()
        invariant
            renames_listed(*b, *c, pairs@),
            open_flags(*b, *c, ob@, oc@),
            total == b.observations@.len() + c.observations@.len(),
            taken_closed(*b, *c, tb0, tc0),
            search_state(*b, *c, seed, tb0, tc0, tb@, tc@, queue@),
            q <= queue@.len(),
            queue@.len() > 0,
            queue@[0] == seed,
            visited(*b, *c, tb@, tc@, queue@, q as int),
        decreases 2 * total + 2 - queue@.len() - q,
    {
        proof {
            lemma_trues_bound(tb@);
            lemma_trues_bound(tc@);
            lemma_trues_bound(tb0);
            lemma_trues_bound(tc0);
        }
        let n = queue[q];
        assert(linked(*b, *c, seed, n));
        proof { lemma_linked_open(*b, *c, seed, n); }
        let ghost before = queue@;
        let ghost tb1 = tb@;
        let ghost tc1 = tc@;
        if n.0 {
            visit_base(b, c, pairs, oc, tb, tc, &mut queue, n, Ghost(seed), Ghost(tb0), Ghost(tc0));
        } else {
            visit_candidate(b, c, pairs, ob, tb, tc, &mut queue, n, Ghost(seed), Ghost(tb0), Ghost(tc0));
        }
        proof {
            lemma_trues_bound(tb@);
            lemma_trues_bound(tc@);
            assert forall|k: int, m: Node| 0 <= k < q + 1 && #[trigger] adjacent(*b, *c, queue@[k], m) implies taken(tb@, tc@, m) by {
                assert(queue@[k] == queue@.subrange(0, before.len() as int)[k]);
                if k < q {
                    assert(adjacent(*b, *c, before[k], m));
                    assert(taken(tb1, tc1, m));
                }
            }
        }
        q = q + 1;
    }
    proof {
        assert forall|k: int, m: Node| 0 <= k < queue@.len() && #[trigger] adjacent(*b, *c, queue@[k], m) implies queue@.contains(m) by {
            assert(taken(tb@, tc@, m));
            if taken(tb0, tc0, m) {
                lemma_adjacent_symmetric(*b, *c, queue@[k], m);
                assert(taken(tb0, tc0, queue@[k]));
            }
        }
        assert forall|x: Node| #[trigger] taken(tb@, tc@, x) implies open_node(*b, *c, x) by {
            if !taken(tb0, tc0, x) {
                let w = choose|w: int| 0 <= w < queue@.len() && queue@[w] == x;
                lemma_linked_open(*b, *c, seed, queue@[w]);
            }
        }
        assert forall|x: Node, m: Node| taken(tb@, tc@, x) && #[trigger] adjacent(*b, *c, x, m) implies taken(tb@, tc@, m) by {
            if !taken(tb0, tc0, x) {
                let w = choose|w: int| 0 <= w < queue@.len() && queue@[w] == x;
                assert(adjacent(*b, *c, queue@[w], m));
            }
        }
    }
    queue
}


/// The components found so far: each is nonempty, lists each node once,
/// holds nodes all linked to its first, and is closed under plausible pairs;
/// no node is in two, and the taken nodes are exactly their nodes.
pub open spec fn partition_state(b: Side, c: Side, tb: Seq<bool>, tc: Seq<bool>, comps: Seq<Seq<Node>>) -> bool {
    &&& forall|n: Node| #[trigger] taken(tb, tc, n) <==> exists|k: int| 0 <= k < comps.len() && #[trigger] comps[k].contains(n)
    &&& forall|k: int| 0 <= k < comps.len() ==> (#[trigger] comps[k]).len() > 0
    &&& forall|k: int, x: int, y: int| #![trigger comps[k][x], comps[k][y]] 0 <= k < comps.len() && 0 <= x < y < comps[k].len() ==> comps[k][x] != comps[k][y]
    &&& forall|k: int, x: int| #![trigger comps[k][x]] 0 <= k < comps.len() && 0 <= x < comps[k].len() ==> linked(b, c, comps[k][0], comps[k][x])
    &&& forall|k: int, x: int, m: Node| #![trigger adjacent(b, c, comps[k][x], m)] 0 <= k < comps.len() && 0 <= x < comps[k].len() && adjacent(b, c, comps[k][x], m) ==> comps[k].contains(m)
    &&& forall|k1: int, k2: int, n: Node| #![trigger comps[k1].contains(n), comps[k2].contains(n)] 0 <= k1 < comps.len() && 0 <= k2 < comps.len() && comps[k1].contains(n) && comps[k2].contains(n) ==> k1 == k2
}

/// The components' nodes as values.
pub open spec fn comp_views(v: Seq<Vec<(bool, usize)>>) -> Seq<Seq<Node>> {
    v.map_values(|q: Vec<(bool, usize)>| q@)
}

/// Adding a fresh closed component keeps the partition.
proof fn lemma_partition_add(b: Side, c: Side, tb: Seq<bool>, tc: Seq<bool>, tb2: Seq<bool>, tc2: Seq<bool>, comps: Seq<Seq<Node>>, q: Seq<Node>)
    requires
        partition_state(b, c, tb, tc, comps),
        q.len() > 0,
        forall|n: Node| #[trigger] taken(tb2, tc2, n) <==> (taken(tb, tc, n) || q.contains(n)),
        forall|k: int| 0 <= k < q.len() ==> !taken(tb, tc, #[trigger] q[k]),
        forall|k: int| 0 <= k < q.len() ==> linked(b, c, q[0], #[trigger] q[k]),
        forall|k1: int, k2: int| 0 <= k1 < k2 < q.len() ==> #[trigger] q[k1] != #[trigger] q[k2],
        forall|k: int, m: Node| 0 <= k < q.len() && #[trigger] adjacent(b, c, q[k], m) ==> q.contains(m),
    ensures
        partition_state(b, c, tb2, tc2, comps.push(q)),
{
    let all = comps.push(q);
    let last = comps.len() as int;
    assert(all[last] == q);
    assert forall|k: int| 0 <= k < comps.len() implies all[k] == comps[k] by {}
    assert forall|n: Node| #[trigger] taken(tb2, tc2, n) <==> exists|k: int| 0 <= k < all.len() && #[trigger] all[k].contains(n) by {
        if taken(tb, tc, n) {
            let k = choose|k: int| 0 <= k < comps.len() && #[trigger] comps[k].contains(n);
            assert(all[k] == comps[k]);
        }
        if exists|k: int| 0 <= k < all.len() && #[trigger] all[k].contains(n) {
            let k = choose|k: int| 0 <= k < all.len() && #[trigger] all[k].contains(n);
            if k < last {
                assert(comps[k].contains(n));
            }
        }
    }
    assert forall|k: int, x: int| #![trigger all[k][x]] 0 <= k < all.len() && 0 <= x < all[k].len() implies linked(b, c, all[k][0], all[k][x]) by {
        if k < last {
            assert(all[k] == comps[k]);
        }
    }
    assert forall|k: int, x: int, m: Node| #![trigger adjacent(b, c, all[k][x], m)] 0 <= k < all.len() && 0 <= x < all[k].len() && adjacent(b, c, all[k][x], m) implies all[k].contains(m) by {
        if k < last {
            assert(all[k] == comps[k]);
        }
    }
    assert forall|k1: int, k2: int, n: Node| #![trigger all[k1].contains(n), all[k2].contains(n)] 0 <= k1 < all.len() && 0 <= k2 < all.len() && all[k1].contains(n) && all[k2].contains(n) implies k1 == k2 by {
        if k1 < last && k2 == last {
            assert(comps[k1].contains(n));
            assert(taken(tb, tc, n));
            let w = choose|w: int| 0 <= w < q.len() && q[w] == n;
        }
        if k2 < last && k1 == last {
            assert(comps[k2].contains(n));
            assert(taken(tb, tc, n));
            let w = choose|w: int| 0 <= w < q.len() && q[w] == n;
        }
        if k1 < last && k2 < last {
            assert(comps[k1].contains(n) && comps[k2].contains(n));
        }
    }
}

/// The connected components of the plausible pairs among the open nodes:
/// every open node in exactly one, each listed once, linked and closed.
fn components(
    b: &Side,
    c: &Side,
    pairs: &Vec<(Vec<u8>, Vec<u8>)>,
    ob: &Vec<bool>,
    oc: &Vec<bool>,
) -> (comps: Vec<Vec<(bool, usize)>>)
    requires
        renames_listed(*b, *c, pairs@),
        open_flags(*b, *c, ob@, oc@),
    ensures
        ({
            let tb = Seq::new(b.observations@.len(), |i: int| open_node(*b, *c, (true, i as usize)));
            let tc = Seq::new(c.observations@.len(), |j: int| open_node(*b, *c, (false, j as usize)));
            partition_state(*b, *c, tb, tc, comp_views(comps@))
        }),
{
    let mut tb: Vec<bool> = Vec::new();
    for i in 0..b.observations.len()
        invariant
            tb@.len() == i,
            forall|x: int| 0 <= x < i ==> !(#[trigger] tb@[x]),
    {
        tb.push(false);
    }
    let mut tc: Vec<bool> = Vec::new();
    for j in 0..c.observations.len()
        invariant
            tc@.len() == j,
            forall|x: int| 0 <= x < j ==> !(#[trigger] tc@[x]),
    {
        tc.push(false);
    }
    let mut comps: Vec<Vec<(bool, usize)>> = Vec::new();
    assert(partition_state(*b, *c, tb@, tc@, comp_views(comps@)));
    for i in 0..b.observations.len()
        invariant
            renames_listed(*b, *c, pairs@),
            open_flags(*b, *c, ob@, oc@),
            tb@.len() == b.observations@.len(),
            tc@.len() == c.observations@.len(),
            taken_closed(*b, *c, tb@, tc@),
            partition_state(*b, *c, tb@, tc@, comp_views(comps@)),
            forall|x: usize| x < i && open_node(*b, *c, (true, x)) ==> #[trigger] taken(tb@, tc@, (true, x)),
    {
        if ob[i] && !tb[i] {
            let ghost tb1 = tb@;
            let ghost tc1 = tc@;
            let ghost before = comp_views(comps@);
            let q = grow(b, c, pairs, ob, oc, &mut tb, &mut tc, (true, i));
            proof {
                lemma_partition_add(*b, *c, tb1, tc1, tb@, tc@, before, q@);
            }
            comps.push(q);
            assert(comp_views(comps@) =~= before.push(q@));
        }
    }
    for j in 0..c.observations.len()
        invariant
            renames_listed(*b, *c, pairs@),
            open_flags(*b, *c, ob@, oc@),
            tb@.len() == b.observations@.len(),
            tc@.len() == c.observations@.len(),
            taken_closed(*b, *c, tb@, tc@),
            partition_state(*b, *c, tb@, tc@, comp_views(comps@)),
            forall|x: usize| x < b.observations@.len() && open_node(*b, *c, (true, x)) ==> #[trigger] taken(tb@, tc@, (true, x)),
            forall|x: usize| x < j && open_node(*b, *c, (false, x)) ==> #[trigger] taken(tb@, tc@, (false, x)),
    {
        if oc[j] && !tc[j] {
            let ghost tb1 = tb@;
            let ghost tc1 = tc@;
            let ghost before = comp_views(comps@);
            let q = grow(b, c, pairs, ob, oc, &mut tb, &mut tc, (false, j));
            proof {
                lemma_partition_add(*b, *c, tb1, tc1, tb@, tc@, before, q@);
            }
            comps.push(q);
            assert(comp_views(comps@) =~= before.push(q@));
        }
    }
    let ghost tbs = Seq::new(b.observations@.len(), |i: int| open_node(*b, *c, (true, i as usize)));
    let ghost tcs = Seq::new(c.observations@.len(), |j: int| open_node(*b, *c, (false, j as usize)));
    assert forall|n: Node| #[trigger] taken(tbs, tcs, n) == taken(tb@, tc@, n) by {
        if taken(tb@, tc@, n) {
            assert(open_node(*b, *c, n));
        }
    }
    comps
}


/// Positions in identity byte order, each naming an observation.
pub open spec fn ids_sorted(o: Seq<Observation>, v: Seq<usize>) -> bool {
    &&& forall|k: int| 0 <= k < v.len() ==> (#[trigger] v[k]) < o.len()
    &&& forall|x: int, y: int| 0 <= x < y < v.len() ==> sorts_before(o[(#[trigger] v[x]) as int].id@, o[(#[trigger] v[y]) as int].id@)
}

/// Puts position `i` into a list kept in identity order.
fn insert_by_id(o: &Vec<Observation>, v: &mut Vec<usize>, i: usize)
    requires
        ids_distinct(o@),
        ids_sorted(o@, old(v)@),
        i < o@.len(),
        !old(v)@.contains(i),
    ensures
        ids_sorted(o@, final(v)@),
        forall|x: usize| #[trigger] final(v)@.contains(x) <==> (old(v)@.contains(x) || x == i),
        final(v)@.len() == old(v)@.len() + 1,
{
    let ghost before = v@;
    let mut p: usize = 0;
    while p < v.len() && sorts_before_bytes(&o[v[p]].id, &o[i].id)
        invariant
            p <= v@.len(),
            v@ == before,
            ids_sorted(o@, before),
            i < o@.len(),
            forall|k: int| 0 <= k < p ==> sorts_before(o@[(#[trigger] before[k]) as int].id@, o@[i as int].id@),
        decreases v@.len() - p,
    {
        p = p + 1;
    }
    proof {
        if p < v@.len() {
            let w = before[p as int];
            if w != i {
                assert(o@[w as int].id@ != o@[i as int].id@) by {
                    if w < i {
                        assert(o@[w as int].id@ != o@[i as int].id@);
                    } else {
                        assert(o@[i as int].id@ != o@[w as int].id@);
                    }
                }
                crate::order::lemma_sorts_before_total(o@[w as int].id@, o@[i as int].id@);
            }
        }
    }
    v.insert(p, i);
    assert(v@ =~= before.insert(p as int, i));
    assert forall|x: int, y: int| 0 <= x < y < v@.len() implies sorts_before(o@[(#[trigger] v@[x]) as int].id@, o@[(#[trigger] v@[y]) as int].id@) by {
        if y < p {
            assert(v@[x] == before[x] && v@[y] == before[y]);
        } else if y == p {
            assert(v@[x] == before[x]);
        } else if x == p {
            assert(v@[y] == before[y - 1]);
            if y - 1 > p {
                assert(sorts_before(o@[before[p as int] as int].id@, o@[before[y - 1] as int].id@));
                crate::order::lemma_sorts_before_transitive(o@[i as int].id@, o@[before[p as int] as int].id@, o@[before[y - 1] as int].id@);
            }
        } else if x < p {
            assert(v@[x] == before[x] && v@[y] == before[y - 1]);
        } else {
            assert(v@[x] == before[x - 1] && v@[y] == before[y - 1]);
        }
    }
    assert forall|x: usize| #[trigger] v@.contains(x) <==> (before.contains(x) || x == i) by {
        if v@.contains(x) {
            let k = choose|k: int| 0 <= k < v@.len() && v@[k] == x;
            if k < p {
                assert(before[k] == x);
            } else if k > p {
                assert(before[k - 1] == x);
            }
        }
        if before.contains(x) {
            let k = choose|k: int| 0 <= k < before.len() && before[k] == x;
            if k < p {
                assert(v@[k] == x);
            } else {
                assert(v@[k + 1] == x);
            }
        }
        if x == i {
            assert(v@[p as int] == x);
        }
    }
}

/// A component's base and candidate positions, each in identity order.
fn split_sorted(b: &Side, c: &Side, q: &Vec<(bool, usize)>) -> (r: (Vec<usize>, Vec<usize>))
    requires
        ids_distinct(b.observations@),
        ids_distinct(c.observations@),
        forall|k: int| 0 <= k < q@.len() ==> open_node(*b, *c, #[trigger] q@[k]),
        forall|x: int, y: int| 0 <= x < y < q@.len() ==> #[trigger] q@[x] != #[trigger] q@[y],
    ensures
        ids_sorted(b.observations@, r.0@),
        ids_sorted(c.observations@, r.1@),
        forall|i: usize| #[trigger] r.0@.contains(i) <==> q@.contains((true, i)),
        forall|j: usize| #[trigger] r.1@.contains(j) <==> q@.contains((false, j)),
        r.0@.len() + r.1@.len() == q@.len(),
{
    let mut bs: Vec<usize> = Vec::new();
    let mut cs: Vec<usize> = Vec::new();
    for k in 0..q.len()
        invariant
            ids_distinct(b.observations@),
            ids_distinct(c.observations@),
            forall|w: int| 0 <= w < q@.len() ==> open_node(*b, *c, #[trigger] q@[w]),
            forall|x: int, y: int| 0 <= x < y < q@.len() ==> #[trigger] q@[x] != #[trigger] q@[y],
            ids_sorted(b.observations@, bs@),
            ids_sorted(c.observations@, cs@),
            forall|i: usize| #[trigger] bs@.contains(i) <==> q@.take(k as int).contains((true, i)),
            forall|j: usize| #[trigger] cs@.contains(j) <==> q@.take(k as int).contains((false, j)),
            bs@.len() + cs@.len() == k,
    {
        let n = q[k];
        assert(open_node(*b, *c, n));
        assert(!q@.take(k as int).contains(n)) by {
            if q@.take(k as int).contains(n) {
                let w = choose|w: int| 0 <= w < k && q@.take(k as int)[w] == n;
                assert(q@[w] == q@[k as int]);
            }
        }
        let ghost prev = q@.take(k as int);
        let ghost next = q@.take(k + 1);
        assert forall|x: Node| #[trigger] next.contains(x) <==> (prev.contains(x) || x == n) by {
            if next.contains(x) {
                let w = choose|w: int| 0 <= w < next.len() && next[w] == x;
                if w < k {
                    assert(prev[w] == x);
                }
            }
            if prev.contains(x) {
                let w = choose|w: int| 0 <= w < prev.len() && prev[w] == x;
                assert(next[w] == x);
            }
            if x == n {
                assert(next[k as int] == x);
            }
        }
        if n.0 {
            insert_by_id(&b.observations, &mut bs, n.1);
        } else {
            insert_by_id(&c.observations, &mut cs, n.1);
        }
    }
    assert(q@.take(q@.len() as int) =~= q@);
    (bs, cs)
}


/// A comparison row as values: labels, the two primaries, and the two
/// lists of alternatives.
pub type RowView = (Labels, Option<usize>, Option<usize>, Seq<usize>, Seq<usize>);

impl View for Comparison {
    type V = (Labels, Option<usize>, Option<usize>, Seq<usize>, Seq<usize>);

    open spec fn view(&self) -> (Labels, Option<usize>, Option<usize>, Seq<usize>, Seq<usize>) {
        (self.labels, self.base, self.candidate, self.alternatives_base@, self.alternatives_candidate@)
    }
}

/// The rows as values.
pub open spec fn row_views(v: Seq<Comparison>) -> Seq<RowView> {
    v.map_values(|x: Comparison| x@)
}

/// A row's base observations: its primary, then its alternatives.
pub open spec fn base_members(x: RowView) -> Seq<usize> {
    match x.1 {
        Some(i) => seq![i] + x.3,
        None => x.3,
    }
}

/// A row's candidate observations: its primary, then its alternatives.
pub open spec fn candidate_members(x: RowView) -> Seq<usize> {
    match x.2 {
        Some(j) => seq![j] + x.4,
        None => x.4,
    }
}

/// Whether a row holds a node.
pub open spec fn member(x: RowView, n: Node) -> bool {
    if n.0 {
        base_members(x).contains(n.1)
    } else {
        candidate_members(x).contains(n.1)
    }
}

/// A side has alternatives only where it has a primary.
pub open spec fn shaped(x: RowView) -> bool {
    &&& (x.1 is None ==> x.3.len() == 0)
    &&& (x.2 is None ==> x.4.len() == 0)
}

/// The labels of an exact pair.
pub open spec fn exact_labels_of(left: crate::correlate::ResolutionView, right: crate::correlate::ResolutionView) -> Labels {
    Labels {
        outcome: Outcome::Exact,
        reason: Reason::SameExtractionKeyAndProjection,
        source_change: SourceChange::Equal,
        target_change: derive_spec(left, right, SourceChange::Equal).0,
        impact: derive_spec(left, right, SourceChange::Equal).1,
    }
}

/// The labels of a one-to-one candidate pair.
pub open spec fn candidate_labels_of(left: crate::correlate::ResolutionView, right: crate::correlate::ResolutionView, across_rename: bool, same_projection: bool) -> Labels {
    let (reason, source) = pair_reason_spec(across_rename, same_projection);
    Labels {
        outcome: Outcome::Candidate,
        reason,
        source_change: source,
        target_change: derive_spec(left, right, source).0,
        impact: derive_spec(left, right, source).1,
    }
}

/// Whether base observation `i` and candidate observation `j` sit in
/// different documents, the first renamed to the second.
pub open spec fn across_rename(b: Side, c: Side, i: usize, j: usize) -> bool {
    let x = b.observations@[i as int];
    let y = c.observations@[j as int];
    x.document@ != y.document@ && renamed(entry_views(b.documents@), entry_views(c.documents@), x.document@, y.document@)
}

/// The labels of a component by its shape: a lone base observation was
/// removed, a lone candidate one is new, one of each is a candidate pair,
/// and anything else is ambiguous.
pub open spec fn component_labels(b: Side, c: Side, x: RowView) -> Labels {
    let bm = base_members(x);
    let cm = candidate_members(x);
    if bm.len() == 1 && cm.len() == 0 {
        isolated_spec(true)
    } else if bm.len() == 0 && cm.len() == 1 {
        isolated_spec(false)
    } else if bm.len() == 1 && cm.len() == 1 {
        let i = bm[0];
        let j = cm[0];
        candidate_labels_of(
            b.observations@[i as int].resolution@,
            c.observations@[j as int].resolution@,
            across_rename(b, c, i, j),
            b.observations@[i as int].projection@ == c.observations@[j as int].projection@,
        )
    } else {
        ambiguous_spec()
    }
}

/// An exact row: one observation of each side with the same identity.
pub open spec fn exact_row(b: Side, c: Side, x: RowView) -> bool {
    &&& x.1 is Some
    &&& x.2 is Some
    &&& x.1.unwrap() < b.observations@.len()
    &&& x.2.unwrap() < c.observations@.len()
    &&& b.observations@[x.1.unwrap() as int].id@ == c.observations@[x.2.unwrap() as int].id@
    &&& x.3.len() == 0
    &&& x.4.len() == 0
    &&& x.0 == exact_labels_of(b.observations@[x.1.unwrap() as int].resolution@, c.observations@[x.2.unwrap() as int].resolution@)
}

/// A component row: open nodes, all linked to one another, closed under
/// plausible pairs, each side in identity order with its least identity
/// primary, labelled by its shape.
pub open spec fn component_row(b: Side, c: Side, x: RowView) -> bool {
    &&& shaped(x)
    &&& base_members(x).len() + candidate_members(x).len() > 0
    &&& forall|n: Node| #[trigger] member(x, n) ==> open_node(b, c, n)
    &&& forall|n: Node, m: Node| #![trigger member(x, n), member(x, m)] member(x, n) && member(x, m) ==> linked(b, c, n, m)
    &&& forall|n: Node, m: Node| #![trigger member(x, n), adjacent(b, c, n, m)] member(x, n) && adjacent(b, c, n, m) ==> member(x, m)
    &&& ids_sorted(b.observations@, base_members(x))
    &&& ids_sorted(c.observations@, candidate_members(x))
    &&& x.0 == component_labels(b, c, x)
}

/// A row from sorted member lists: the first of each is primary.
fn row_of(labels: Labels, bs: &Vec<usize>, cs: &Vec<usize>) -> (r: Comparison)
    ensures
        r@.0 == labels,
        base_members(r@) == bs@,
        candidate_members(r@) == cs@,
        shaped(r@),
{
    let mut alternatives_base: Vec<usize> = Vec::new();
    let mut k: usize = 1;
    while k < bs.len()
        invariant
            1 <= k,
            bs@.len() > 0 ==> k <= bs@.len(),
            bs@.len() > 0 ==> alternatives_base@ == bs@.subrange(1, k as int),
            bs@.len() == 0 ==> alternatives_base@.len() == 0,
        decreases bs@.len() - k,
    {
        alternatives_base.push(bs[k]);
        assert(bs@.subrange(1, k + 1) =~= bs@.subrange(1, k as int).push(bs@[k as int]));
        k = k + 1;
    }
    let mut alternatives_candidate: Vec<usize> = Vec::new();
    let mut k: usize = 1;
    while k < cs.len()
        invariant
            1 <= k,
            cs@.len() > 0 ==> k <= cs@.len(),
            cs@.len() > 0 ==> alternatives_candidate@ == cs@.subrange(1, k as int),
            cs@.len() == 0 ==> alternatives_candidate@.len() == 0,
        decreases cs@.len() - k,
    {
        alternatives_candidate.push(cs[k]);
        assert(cs@.subrange(1, k + 1) =~= cs@.subrange(1, k as int).push(cs@[k as int]));
        k = k + 1;
    }
    let base = if bs.len() > 0 { Some(bs[0]) } else { None };
    let candidate = if cs.len() > 0 { Some(cs[0]) } else { None };
    let r = Comparison { labels, base, candidate, alternatives_base, alternatives_candidate };
    assert(base_members(r@) =~= bs@);
    assert(candidate_members(r@) =~= cs@);
    r
}

/// A component's row from its sorted base and candidate positions.
fn component_comparison(
    b: &Side,
    c: &Side,
    pairs: &Vec<(Vec<u8>, Vec<u8>)>,
    bs: &Vec<usize>,
    cs: &Vec<usize>,
) -> (r: Comparison)
    requires
        renames_listed(*b, *c, pairs@),
        ids_sorted(b.observations@, bs@),
        ids_sorted(c.observations@, cs@),
    ensures
        base_members(r@) == bs@,
        candidate_members(r@) == cs@,
        shaped(r@),
        r@.0 == component_labels(*b, *c, r@),
{
    let labels = if bs.len() == 1 && cs.len() == 0 {
        isolated(true)
    } else if bs.len() == 0 && cs.len() == 1 {
        isolated(false)
    } else if bs.len() == 1 && cs.len() == 1 {
        let x = &b.observations[bs[0]];
        let y = &c.observations[cs[0]];
        let across = !same_bytes(&x.document, &y.document) && is_renamed(b, c, pairs, &x.document, &y.document);
        let same = same_bytes(&x.projection, &y.projection);
        candidate_comparison(&x.resolution, &y.resolution, across, same)
    } else {
        ambiguous()
    };
    row_of(labels, bs, cs)
}


/// Whether a node names an observation of its side.
pub open spec fn valid_node(b: Side, c: Side, n: Node) -> bool {
    if n.0 {
        n.1 < b.observations@.len()
    } else {
        n.1 < c.observations@.len()
    }
}

/// Every row is an exact pair or a component, every observation is in a
/// row, and none is in two.
pub open spec fn rows_partition(b: Side, c: Side, rows: Seq<RowView>) -> bool {
    &&& forall|k: int| 0 <= k < rows.len() ==> exact_row(b, c, #[trigger] rows[k]) || component_row(b, c, rows[k])
    &&& forall|n: Node| #[trigger] valid_node(b, c, n) ==> exists|k: int| 0 <= k < rows.len() && #[trigger] member(rows[k], n)
    &&& forall|k1: int, k2: int, n: Node| #![trigger member(rows[k1], n), member(rows[k2], n)]
        0 <= k1 < rows.len() && 0 <= k2 < rows.len() && member(rows[k1], n) && member(rows[k2], n) ==> k1 == k2
}

/// A component of the partition, as a row, is a component row.
proof fn lemma_component_row(b: Side, c: Side, tb: Seq<bool>, tc: Seq<bool>, comps: Seq<Seq<Node>>, t: int, x: RowView)
    requires
        partition_state(b, c, tb, tc, comps),
        forall|n: Node| #[trigger] taken(tb, tc, n) ==> open_node(b, c, n),
        0 <= t < comps.len(),
        forall|n: Node| #[trigger] member(x, n) <==> comps[t].contains(n),
        base_members(x).len() + candidate_members(x).len() > 0,
        shaped(x),
        ids_sorted(b.observations@, base_members(x)),
        ids_sorted(c.observations@, candidate_members(x)),
        x.0 == component_labels(b, c, x),
    ensures
        component_row(b, c, x),
{
    let q = comps[t];
    assert forall|n: Node| #[trigger] member(x, n) implies open_node(b, c, n) by {
        assert(comps[t].contains(n));
        assert(taken(tb, tc, n));
    }
    assert forall|n: Node, m: Node| #![trigger member(x, n), member(x, m)] member(x, n) && member(x, m) implies linked(b, c, n, m) by {
        let a = choose|a: int| 0 <= a < q.len() && q[a] == n;
        let z = choose|z: int| 0 <= z < q.len() && q[z] == m;
        assert(linked(b, c, comps[t][0], comps[t][a]));
        assert(linked(b, c, comps[t][0], comps[t][z]));
        lemma_linked_symmetric(b, c, q[0], n);
        lemma_linked_transitive(b, c, n, q[0], m);
    }
    assert forall|n: Node, m: Node| #![trigger member(x, n), adjacent(b, c, n, m)] member(x, n) && adjacent(b, c, n, m) implies member(x, m) by {
        let a = choose|a: int| 0 <= a < q.len() && q[a] == n;
        assert(adjacent(b, c, comps[t][a], m));
    }
}

/// The rows before ordering: the exact pairs in base order, then one row
/// per component.
fn assemble(b: &Side, c: &Side) -> (rows: Vec<Comparison>)
    requires
        ids_distinct(b.observations@),
        ids_distinct(c.observations@),
        paths_distinct(entry_views(b.documents@)),
        paths_distinct(entry_views(c.documents@)),
    ensures
        rows_partition(*b, *c, row_views(rows@)),
{
    let ghost bo = b.observations@;
    let ghost co = c.observations@;
    let mut rows: Vec<Comparison> = Vec::new();
    let mut ob: Vec<bool> = Vec::new();
    for i in 0..b.observations.len()
        invariant
            bo == b.observations@,
            co == c.observations@,
            ids_distinct(bo),
            ids_distinct(co),
            ob@.len() == i,
            forall|x: int| 0 <= x < i ==> #[trigger] ob@[x] == open_node(*b, *c, (true, x as usize)),
            rows@.len() <= i,
            forall|k: int| 0 <= k < rows@.len() ==> exact_row(*b, *c, #[trigger] row_views(rows@)[k]),
            forall|k: int| 0 <= k < rows@.len() ==> (#[trigger] row_views(rows@)[k]).1.unwrap() < i,
            forall|k1: int, k2: int| 0 <= k1 < k2 < rows@.len() ==> (#[trigger] row_views(rows@)[k1]).1.unwrap() < (#[trigger] row_views(rows@)[k2]).1.unwrap(),
            forall|x: usize| x < i && !open_node(*b, *c, (true, x)) ==> exists|k: int| 0 <= k < rows@.len() && (#[trigger] row_views(rows@)[k]).1 == Some(x),
    {
        let ghost pre = row_views(rows@);
        match position_of(&c.observations, &b.observations[i].id) {
            Some(j) => {
                assert(has_id(co, bo[i as int].id@)) by {
                    assert(co[j as int].id@ == bo[i as int].id@);
                }
                let labels = exact_comparison(&b.observations[i].resolution, &c.observations[j].resolution);
                let row = Comparison {
                    labels,
                    base: Some(i),
                    candidate: Some(j),
                    alternatives_base: Vec::new(),
                    alternatives_candidate: Vec::new(),
                };
                rows.push(row);
                ob.push(false);
                assert(row_views(rows@) =~= pre.push(row@));
                assert(row_views(rows@)[pre.len() as int] == row@);
                assert forall|x: usize| x < i + 1 && !open_node(*b, *c, (true, x)) implies exists|k: int| 0 <= k < rows@.len() && (#[trigger] row_views(rows@)[k]).1 == Some(x) by {
                    if x < i {
                        let k = choose|k: int| 0 <= k < pre.len() && (#[trigger] pre[k]).1 == Some(x);
                        assert(row_views(rows@)[k] == pre[k]);
                    } else {
                        assert(row_views(rows@)[pre.len() as int].1 == Some(x));
                    }
                }
            },
            None => {
                ob.push(true);
                assert(row_views(rows@) =~= pre);
                assert(open_node(*b, *c, (true, i)));
            },
        }
    }
    let ghost exact = row_views(rows@);
    let ghost e = exact.len();
    let mut oc: Vec<bool> = Vec::new();
    for j in 0..c.observations.len()
        invariant
            bo == b.observations@,
            co == c.observations@,
            oc@.len() == j,
            forall|x: int| 0 <= x < j ==> #[trigger] oc@[x] == open_node(*b, *c, (false, x as usize)),
    {
        let found = position_of(&b.observations, &c.observations[j].id);
        oc.push(found.is_none());
    }
    let pairs = unique_path_pairs(&b.documents, &c.documents);
    let comps = components(b, c, &pairs, &ob, &oc);
    let ghost tbs = Seq::new(bo.len(), |i: int| open_node(*b, *c, (true, i as usize)));
    let ghost tcs = Seq::new(co.len(), |j: int| open_node(*b, *c, (false, j as usize)));
    let ghost cv = comp_views(comps@);
    assert forall|n: Node| #[trigger] taken(tbs, tcs, n) implies open_node(*b, *c, n) by {}
    for t in 0..comps.len()
        invariant
            bo == b.observations@,
            co == c.observations@,
            ids_distinct(bo),
            ids_distinct(co),
            renames_listed(*b, *c, pairs@),
            cv == comp_views(comps@),
            partition_state(*b, *c, tbs, tcs, cv),
            forall|n: Node| #[trigger] taken(tbs, tcs, n) ==> open_node(*b, *c, n),
            rows@.len() == e + t,
            row_views(rows@).take(e as int) == exact,
            forall|k: int| 0 <= k < t ==> component_row(*b, *c, #[trigger] row_views(rows@)[e + k]),
            forall|k: int, n: Node| 0 <= k < t ==> (#[trigger] member(row_views(rows@)[e + k], n) <==> cv[k].contains(n)),
    {
        let q = &comps[t];
        assert(q@ == cv[t as int]);
        assert forall|k: int| 0 <= k < q@.len() implies open_node(*b, *c, #[trigger] q@[k]) by {
            assert(cv[t as int].contains(q@[k]));
            assert(taken(tbs, tcs, q@[k]));
        }
        assert forall|x: int, y: int| 0 <= x < y < q@.len() implies #[trigger] q@[x] != #[trigger] q@[y] by {
            assert(cv[t as int][x] == q@[x] && cv[t as int][y] == q@[y]);
        }
        let (bs, cs) = split_sorted(b, c, q);
        let row = component_comparison(b, c, &pairs, &bs, &cs);
        assert forall|n: Node| #[trigger] member(row@, n) <==> cv[t as int].contains(n) by {
            if n.0 {
                assert(bs@.contains(n.1) <==> q@.contains((true, n.1)));
            } else {
                assert(cs@.contains(n.1) <==> q@.contains((false, n.1)));
            }
        }
        proof {
            lemma_component_row(*b, *c, tbs, tcs, cv, t as int, row@);
        }
        let ghost pre = row_views(rows@);
        rows.push(row);
        assert(row_views(rows@) =~= pre.push(row@));
        assert(row_views(rows@).take(e as int) =~= pre.take(e as int));
    }
    let ghost all = row_views(rows@);
    proof {
        assert(bo.len() == b.observations.len());
        assert(co.len() == c.observations.len());
        lemma_assembled(*b, *c, tbs, tcs, cv, exact, all);
    }
    rows
}


/// The exact rows and the component rows together partition the
/// observations.
proof fn lemma_assembled(b: Side, c: Side, tb: Seq<bool>, tc: Seq<bool>, cv: Seq<Seq<Node>>, exact: Seq<RowView>, all: Seq<RowView>)
    requires
        ids_distinct(b.observations@),
        ids_distinct(c.observations@),
        tb == Seq::new(b.observations@.len(), |i: int| open_node(b, c, (true, i as usize))),
        tc == Seq::new(c.observations@.len(), |j: int| open_node(b, c, (false, j as usize))),
        partition_state(b, c, tb, tc, cv),
        forall|k: int| 0 <= k < exact.len() ==> exact_row(b, c, #[trigger] exact[k]),
        forall|k1: int, k2: int| 0 <= k1 < k2 < exact.len() ==> (#[trigger] exact[k1]).1.unwrap() < (#[trigger] exact[k2]).1.unwrap(),
        forall|x: usize| x < b.observations@.len() && !open_node(b, c, (true, x)) ==> exists|k: int| 0 <= k < exact.len() && (#[trigger] exact[k]).1 == Some(x),
        all.len() == exact.len() + cv.len(),
        all.take(exact.len() as int) == exact,
        forall|k: int| 0 <= k < cv.len() ==> component_row(b, c, #[trigger] all[exact.len() + k]),
        forall|k: int, n: Node| 0 <= k < cv.len() ==> (#[trigger] member(all[exact.len() + k], n) <==> cv[k].contains(n)),
        b.observations@.len() <= usize::MAX,
        c.observations@.len() <= usize::MAX,
    ensures
        rows_partition(b, c, all),
{
    let e = exact.len() as int;
    let bo = b.observations@;
    let co = c.observations@;
    assert forall|k: int| 0 <= k < e implies #[trigger] all[k] == exact[k] by {
        assert(all.take(e)[k] == all[k]);
    }
    // an exact row holds exactly its two observations, neither of them open
    assert forall|k: int, n: Node| 0 <= k < e && #[trigger] member(all[k], n) implies
        !open_node(b, c, n) && (if n.0 { n.1 == exact[k].1.unwrap() } else { n.1 == exact[k].2.unwrap() }) by {
        assert(all[k] == exact[k]);
        let x = exact[k];
        assert(exact_row(b, c, x));
        assert(base_members(x) =~= seq![x.1.unwrap()]);
        assert(candidate_members(x) =~= seq![x.2.unwrap()]);
        let i = x.1.unwrap();
        let j = x.2.unwrap();
        if n.0 {
            assert(base_members(x)[0] == i);
            assert(has_id(co, bo[i as int].id@)) by { assert(co[j as int].id@ == bo[i as int].id@); }
        } else {
            assert(candidate_members(x)[0] == j);
            assert(has_id(bo, co[j as int].id@)) by { assert(bo[i as int].id@ == co[j as int].id@); }
        }
    }
    // every observation is in a row
    assert forall|n: Node| #[trigger] valid_node(b, c, n) implies exists|k: int| 0 <= k < all.len() && #[trigger] member(all[k], n) by {
        if open_node(b, c, n) {
            assert(taken(tb, tc, n));
            let t = choose|t: int| 0 <= t < cv.len() && #[trigger] cv[t].contains(n);
            assert(member(all[e + t], n));
        } else if n.0 {
            let k = choose|k: int| 0 <= k < exact.len() && (#[trigger] exact[k]).1 == Some(n.1);
            assert(all[k] == exact[k]);
            assert(base_members(exact[k]) =~= seq![n.1]);
            assert(base_members(exact[k])[0] == n.1);
            assert(member(all[k], n));
        } else {
            let w0 = choose|w: int| 0 <= w < bo.len() && (#[trigger] bo[w]).id@ == co[n.1 as int].id@;
            let w = w0 as usize;
            assert(w as int == w0);
            assert(!open_node(b, c, (true, w))) by {
                assert(has_id(co, bo[w as int].id@)) by { assert(co[n.1 as int].id@ == bo[w as int].id@); }
            }
            let k = choose|k: int| 0 <= k < exact.len() && (#[trigger] exact[k]).1 == Some(w);
            let x = exact[k];
            assert(exact_row(b, c, x));
            let j = x.2.unwrap();
            assert(co[j as int].id@ == co[n.1 as int].id@);
            if j != n.1 {
                if j < n.1 {
                    assert(co[j as int].id@ != co[n.1 as int].id@);
                } else {
                    assert(co[n.1 as int].id@ != co[j as int].id@);
                }
            }
            assert(all[k] == x);
            assert(candidate_members(x) =~= seq![j]);
            assert(candidate_members(x)[0] == j);
            assert(member(all[k], n));
        }
    }
    // no observation is in two rows
    assert forall|k1: int, k2: int, n: Node| #![trigger member(all[k1], n), member(all[k2], n)]
        0 <= k1 < all.len() && 0 <= k2 < all.len() && member(all[k1], n) && member(all[k2], n) implies k1 == k2 by {
        if k1 < e && k2 < e {
            let i1 = exact[k1].1.unwrap();
            let i2 = exact[k2].1.unwrap();
            if n.0 {
                assert(i1 == n.1 && i2 == n.1);
            } else {
                let j = n.1;
                assert(exact_row(b, c, exact[k1]) && exact_row(b, c, exact[k2]));
                assert(bo[i1 as int].id@ == co[j as int].id@);
                assert(bo[i2 as int].id@ == co[j as int].id@);
                if i1 < i2 {
                    assert(bo[i1 as int].id@ != bo[i2 as int].id@);
                } else if i2 < i1 {
                    assert(bo[i2 as int].id@ != bo[i1 as int].id@);
                }
            }
            if k1 < k2 {
                assert(exact[k1].1.unwrap() < exact[k2].1.unwrap());
            } else if k2 < k1 {
                assert(exact[k2].1.unwrap() < exact[k1].1.unwrap());
            }
        } else if k1 < e && k2 >= e {
            assert(component_row(b, c, all[e + (k2 - e)]));
            assert(all[e + (k2 - e)] == all[k2]);
        } else if k2 < e && k1 >= e {
            assert(component_row(b, c, all[e + (k1 - e)]));
            assert(all[e + (k1 - e)] == all[k1]);
        } else {
            let t1 = k1 - e;
            let t2 = k2 - e;
            assert(all[e + t1] == all[k1] && all[e + t2] == all[k2]);
            assert(cv[t1].contains(n) && cv[t2].contains(n));
        }
    }
    assert forall|k: int| 0 <= k < all.len() implies exact_row(b, c, #[trigger] all[k]) || component_row(b, c, all[k]) by {
        if k < e {
            assert(all[k] == exact[k]);
        } else {
            assert(all[e + (k - e)] == all[k]);
        }
    }
}


/// Whether one optional identity sorts before another: none first, then by
/// bytes.
pub open spec fn opt_before(x: Option<Seq<u8>>, y: Option<Seq<u8>>) -> bool {
    match (x, y) {
        (None, Some(_)) => true,
        (Some(a), Some(z)) => sorts_before(a, z),
        _ => false,
    }
}

/// A row's sort key: its candidate primary's identity, then its base
/// primary's.
pub open spec fn row_key(b: Side, c: Side, x: RowView) -> (Option<Seq<u8>>, Option<Seq<u8>>) {
    (
        match x.2 {
            Some(j) => Some(c.observations@[j as int].id@),
            None => None,
        },
        match x.1 {
            Some(i) => Some(b.observations@[i as int].id@),
            None => None,
        },
    )
}

/// Whether one key sorts before another.
pub open spec fn key_before(k1: (Option<Seq<u8>>, Option<Seq<u8>>), k2: (Option<Seq<u8>>, Option<Seq<u8>>)) -> bool {
    opt_before(k1.0, k2.0) || (k1.0 == k2.0 && opt_before(k1.1, k2.1))
}

proof fn lemma_opt_before_order(x: Option<Seq<u8>>, y: Option<Seq<u8>>, z: Option<Seq<u8>>)
    ensures
        !opt_before(x, x),
        opt_before(x, y) ==> !opt_before(y, x),
        opt_before(x, y) && opt_before(y, z) ==> opt_before(x, z),
{
    match x {
        Some(a) => {
            crate::order::lemma_sorts_before_irreflexive(a);
        },
        None => {},
    }
    match (x, y) {
        (Some(a), Some(d)) => {
            if sorts_before(a, d) && sorts_before(d, a) {
                crate::order::lemma_sorts_before_transitive(a, d, a);
                crate::order::lemma_sorts_before_irreflexive(a);
            }
        },
        _ => {},
    }
    match (x, y, z) {
        (Some(a), Some(d), Some(e)) => {
            if sorts_before(a, d) && sorts_before(d, e) {
                crate::order::lemma_sorts_before_transitive(a, d, e);
            }
        },
        _ => {},
    }
}

/// Keys sort strictly: never before themselves, never both ways, and
/// transitively.
proof fn lemma_key_before_order(k1: (Option<Seq<u8>>, Option<Seq<u8>>), k2: (Option<Seq<u8>>, Option<Seq<u8>>), k3: (Option<Seq<u8>>, Option<Seq<u8>>))
    ensures
        key_before(k1, k2) ==> !key_before(k2, k1),
        key_before(k1, k2) && key_before(k2, k3) ==> key_before(k1, k3),
{
    lemma_opt_before_order(k1.0, k2.0, k3.0);
    lemma_opt_before_order(k2.0, k1.0, k3.0);
    lemma_opt_before_order(k1.1, k2.1, k3.1);
    lemma_opt_before_order(k2.1, k1.1, k3.1);
    lemma_opt_before_order(k1.0, k3.0, k2.0);
    lemma_opt_before_order(k2.0, k3.0, k1.0);
}

/// A row whose primaries name observations of their sides.
pub open spec fn in_range(b: Side, c: Side, x: RowView) -> bool {
    &&& (x.1 matches Some(i) ==> i < b.observations@.len())
    &&& (x.2 matches Some(j) ==> j < c.observations@.len())
}

/// Whether one optional identity sorts before another.
fn opt_before_exec(x: Option<&Vec<u8>>, y: Option<&Vec<u8>>) -> (r: bool)
    ensures
        r == opt_before(
            match x {
                Some(a) => Some(a@),
                None => None,
            },
            match y {
                Some(a) => Some(a@),
                None => None,
            },
        ),
{
    match (x, y) {
        (None, Some(_)) => true,
        (Some(a), Some(z)) => sorts_before_bytes(a, z),
        _ => false,
    }
}

/// Whether two optional identities are equal.
fn opt_same(x: Option<&Vec<u8>>, y: Option<&Vec<u8>>) -> (r: bool)
    ensures
        r == (match x {
            Some(a) => Some(a@),
            None => None,
        } == match y {
            Some(a) => Some(a@),
            None => None,
        }),
{
    match (x, y) {
        (None, None) => true,
        (Some(a), Some(z)) => same_bytes(a, z),
        _ => false,
    }
}

/// Whether row `x` sorts before row `y`.
fn row_before(b: &Side, c: &Side, x: &Comparison, y: &Comparison) -> (r: bool)
    requires
        in_range(*b, *c, x@),
        in_range(*b, *c, y@),
    ensures
        r == key_before(row_key(*b, *c, x@), row_key(*b, *c, y@)),
{
    let xc = match x.candidate { Some(j) => Some(&c.observations[j].id), None => None };
    let yc = match y.candidate { Some(j) => Some(&c.observations[j].id), None => None };
    let xb = match x.base { Some(i) => Some(&b.observations[i].id), None => None };
    let yb = match y.base { Some(i) => Some(&b.observations[i].id), None => None };
    opt_before_exec(xc, yc) || (opt_same(xc, yc) && opt_before_exec(xb, yb))
}

/// The positions of the rows in key order: each position once.
fn order_rows(b: &Side, c: &Side, rows: &Vec<Comparison>) -> (perm: Vec<usize>)
    requires
        forall|k: int| 0 <= k < rows@.len() ==> in_range(*b, *c, #[trigger] rows@[k]@),
    ensures
        perm@.len() == rows@.len(),
        forall|t: int| 0 <= t < perm@.len() ==> (#[trigger] perm@[t]) < rows@.len(),
        forall|t1: int, t2: int| 0 <= t1 < t2 < perm@.len() ==> #[trigger] perm@[t1] != #[trigger] perm@[t2],
        forall|k: usize| k < rows@.len() ==> #[trigger] perm@.contains(k),
        forall|t1: int, t2: int| 0 <= t1 < t2 < perm@.len() ==> !key_before(
            row_key(*b, *c, rows@[(#[trigger] perm@[t2]) as int]@),
            row_key(*b, *c, rows@[(#[trigger] perm@[t1]) as int]@),
        ),
{
    let mut perm: Vec<usize> = Vec::new();
    for idx in 0..rows.len()
        invariant
            forall|k: int| 0 <= k < rows@.len() ==> in_range(*b, *c, #[trigger] rows@[k]@),
            perm@.len() == idx,
            forall|t: int| 0 <= t < perm@.len() ==> (#[trigger] perm@[t]) < idx,
            forall|t1: int, t2: int| 0 <= t1 < t2 < perm@.len() ==> #[trigger] perm@[t1] != #[trigger] perm@[t2],
            forall|k: usize| k < idx ==> #[trigger] perm@.contains(k),
            forall|t1: int, t2: int| 0 <= t1 < t2 < perm@.len() ==> !key_before(
                row_key(*b, *c, rows@[(#[trigger] perm@[t2]) as int]@),
                row_key(*b, *c, rows@[(#[trigger] perm@[t1]) as int]@),
            ),
    {
        let ghost before = perm@;
        let ghost knew = row_key(*b, *c, rows@[idx as int]@);
        let mut p: usize = 0;
        while p < perm.len() && !row_before(b, c, &rows[idx], &rows[perm[p]])
            invariant
                forall|k: int| 0 <= k < rows@.len() ==> in_range(*b, *c, #[trigger] rows@[k]@),
                perm@ == before,
                idx < rows@.len(),
                knew == row_key(*b, *c, rows@[idx as int]@),
                p <= perm@.len(),
                forall|t: int| 0 <= t < perm@.len() ==> (#[trigger] perm@[t]) < idx,
                forall|t: int| 0 <= t < p ==> !key_before(knew, row_key(*b, *c, rows@[(#[trigger] perm@[t]) as int]@)),
            decreases perm@.len() - p,
        {
            p = p + 1;
        }
        perm.insert(p, idx);
        assert(perm@ =~= before.insert(p as int, idx));
        assert forall|t1: int, t2: int| 0 <= t1 < t2 < perm@.len() implies !key_before(
            row_key(*b, *c, rows@[(#[trigger] perm@[t2]) as int]@),
            row_key(*b, *c, rows@[(#[trigger] perm@[t1]) as int]@),
        ) by {
            if t2 < p {
                assert(perm@[t1] == before[t1] && perm@[t2] == before[t2]);
            } else if t2 == p {
                assert(perm@[t1] == before[t1]);
            } else if t1 == p {
                let kp = row_key(*b, *c, rows@[before[p as int] as int]@);
                let kt = row_key(*b, *c, rows@[before[t2 - 1] as int]@);
                assert(perm@[t2] == before[t2 - 1]);
                assert(key_before(knew, kp));
                lemma_key_before_order(knew, kp, kt);
                lemma_key_before_order(kt, knew, kp);
                if t2 - 1 > p {
                    assert(!key_before(kt, kp));
                }
            } else if t1 < p {
                assert(perm@[t1] == before[t1] && perm@[t2] == before[t2 - 1]);
            } else {
                assert(perm@[t1] == before[t1 - 1] && perm@[t2] == before[t2 - 1]);
            }
        }
        assert forall|t1: int, t2: int| 0 <= t1 < t2 < perm@.len() implies #[trigger] perm@[t1] != #[trigger] perm@[t2] by {
            if t1 == p {
                assert(perm@[t2] == before[t2 - 1]);
            } else if t2 == p {
                if t1 < p { assert(perm@[t1] == before[t1]); }
            } else if t1 < p && t2 < p {
                assert(perm@[t1] == before[t1] && perm@[t2] == before[t2]);
            } else if t1 < p {
                assert(perm@[t1] == before[t1] && perm@[t2] == before[t2 - 1]);
            } else {
                assert(perm@[t1] == before[t1 - 1] && perm@[t2] == before[t2 - 1]);
            }
        }
        assert forall|t: int| 0 <= t < perm@.len() implies (#[trigger] perm@[t]) < idx + 1 by {
            if t < p {
                assert(perm@[t] == before[t]);
            } else if t > p {
                assert(perm@[t] == before[t - 1]);
            }
        }
        assert forall|k: usize| k < idx + 1 implies #[trigger] perm@.contains(k) by {
            if k == idx {
                assert(perm@[p as int] == k);
            } else {
                assert(before.contains(k));
                let t = choose|t: int| 0 <= t < before.len() && before[t] == k;
                if t < p {
                    assert(perm@[t] == k);
                } else {
                    assert(perm@[t + 1] == k);
                }
            }
        }
    }
    perm
}

/// A copy of a position list.
fn copy_positions(v: &Vec<usize>) -> (r: Vec<usize>)
    ensures
        r@ == v@,
{
    let mut r: Vec<usize> = Vec::new();
    for k in 0..v.len()
        invariant
            r@ == v@.take(k as int),
    {
        r.push(v[k]);
        assert(v@.take(k + 1) =~= v@.take(k as int).push(v@[k as int]));
    }
    assert(v@.take(v@.len() as int) =~= v@);
    r
}

/// A copy of a row.
fn copy_row(x: &Comparison) -> (r: Comparison)
    ensures
        r@ == x@,
{
    Comparison {
        labels: x.labels,
        base: x.base,
        candidate: x.candidate,
        alternatives_base: copy_positions(&x.alternatives_base),
        alternatives_candidate: copy_positions(&x.alternatives_candidate),
    }
}

/// The correlation of two sides: the rows partition the observations into
/// exact pairs and components, in key order.
pub open spec fn correlation(b: Side, c: Side, rows: Seq<RowView>) -> bool {
    &&& rows_partition(b, c, rows)
    &&& forall|k1: int, k2: int| 0 <= k1 < k2 < rows.len() ==> !key_before(row_key(b, c, #[trigger] rows[k2]), row_key(b, c, #[trigger] rows[k1]))
}

/// Correlates the two sides: exact by equal observation identity, then
/// plausible pairs under the correlation projection, one comparison per
/// connected component, in key order. Every observation appears exactly
/// once, as a primary or an alternative.
pub fn correlate(base: &Side, candidate: &Side) -> (r: Result<Vec<Comparison>, CorrelationError>)
    requires
        paths_distinct(entry_views(base.documents@)),
        paths_distinct(entry_views(candidate.documents@)),
    ensures
        r is Err <==> !(ids_distinct(base.observations@) && ids_distinct(candidate.observations@)),
        r matches Ok(rows) ==> correlation(*base, *candidate, row_views(rows@)),
{
    if !distinct_ids(&base.observations) || !distinct_ids(&candidate.observations) {
        return Err(CorrelationError::DuplicateIdentity);
    }
    let rows = assemble(base, candidate);
    let ghost rv = row_views(rows@);
    assert forall|k: int| 0 <= k < rows@.len() implies in_range(*base, *candidate, #[trigger] rows@[k]@) by {
        assert(rv[k] == rows@[k]@);
        if !exact_row(*base, *candidate, rv[k]) {
            assert(component_row(*base, *candidate, rv[k]));
            if rv[k].1 is Some {
                assert(base_members(rv[k])[0] == rv[k].1.unwrap());
            }
            if rv[k].2 is Some {
                assert(candidate_members(rv[k])[0] == rv[k].2.unwrap());
            }
        }
    }
    let perm = order_rows(base, candidate, &rows);
    let mut out: Vec<Comparison> = Vec::new();
    for t in 0..perm.len()
        invariant
            perm@.len() == rows@.len(),
            forall|w: int| 0 <= w < perm@.len() ==> (#[trigger] perm@[w]) < rows@.len(),
            out@.len() == t,
            forall|w: int| 0 <= w < t ==> (#[trigger] out@[w])@ == rows@[perm@[w] as int]@,
    {
        let row = copy_row(&rows[perm[t]]);
        out.push(row);
    }
    proof {
        assert(rv.len() == rows.len());
        assert forall|t: int| 0 <= t < out@.len() implies #[trigger] row_views(out@)[t] == rv[perm@[t] as int] by {}
        lemma_ordered(*base, *candidate, rv, perm@, row_views(out@));
    }
    Ok(out)
}

/// Rows taken in the order of a permutation keep the partition, and the
/// permutation's order is the key order.
proof fn lemma_ordered(b: Side, c: Side, rows: Seq<RowView>, perm: Seq<usize>, out: Seq<RowView>)
    requires
        rows_partition(b, c, rows),
        perm.len() == rows.len(),
        out.len() == perm.len(),
        forall|t: int| 0 <= t < perm.len() ==> (#[trigger] perm[t]) < rows.len(),
        forall|t1: int, t2: int| 0 <= t1 < t2 < perm.len() ==> #[trigger] perm[t1] != #[trigger] perm[t2],
        forall|k: usize| k < rows.len() ==> #[trigger] perm.contains(k),
        forall|t1: int, t2: int| 0 <= t1 < t2 < perm.len() ==> !key_before(
            row_key(b, c, rows[(#[trigger] perm[t2]) as int]),
            row_key(b, c, rows[(#[trigger] perm[t1]) as int]),
        ),
        forall|t: int| 0 <= t < out.len() ==> #[trigger] out[t] == rows[perm[t] as int],
        rows.len() <= usize::MAX,
    ensures
        correlation(b, c, out),
{
    assert forall|k: int| 0 <= k < out.len() implies exact_row(b, c, #[trigger] out[k]) || component_row(b, c, out[k]) by {
        assert(out[k] == rows[perm[k] as int]);
    }
    assert forall|n: Node| #[trigger] valid_node(b, c, n) implies exists|k: int| 0 <= k < out.len() && #[trigger] member(out[k], n) by {
        let k0 = choose|k: int| 0 <= k < rows.len() && #[trigger] member(rows[k], n);
        let u = k0 as usize;
        assert(u as int == k0);
        assert(perm.contains(u));
        let t = choose|t: int| 0 <= t < perm.len() && perm[t] == u;
        assert(out[t] == rows[perm[t] as int]);
        assert(rows[perm[t] as int] == rows[k0]);
        assert(member(out[t], n));
    }
    assert forall|k1: int, k2: int, n: Node| #![trigger member(out[k1], n), member(out[k2], n)]
        0 <= k1 < out.len() && 0 <= k2 < out.len() && member(out[k1], n) && member(out[k2], n) implies k1 == k2 by {
        assert(out[k1] == rows[perm[k1] as int] && out[k2] == rows[perm[k2] as int]);
        assert(member(rows[perm[k1] as int], n) && member(rows[perm[k2] as int], n));
        if k1 < k2 {
            assert(perm[k1] != perm[k2]);
        } else if k2 < k1 {
            assert(perm[k2] != perm[k1]);
        }
    }
    assert forall|k1: int, k2: int| 0 <= k1 < k2 < out.len() implies !key_before(row_key(b, c, #[trigger] out[k2]), row_key(b, c, #[trigger] out[k1])) by {
        assert(out[k1] == rows[perm[k1] as int] && out[k2] == rows[perm[k2] as int]);
    }
}

} // verus!
