//! The defective value claims of a run, grouped by document, name and kind:
//! one group per finding, represented by its least location, with the
//! digests of its sources counted.

use crate::bytes::same_bytes;
use crate::claim::{
    claim_respelling, quotable, respelled, ClaimCarrier, ClaimMissingReason, ClaimOutcome, ClaimVerdict,
};
use crate::text::utf8_text;
use vstd::utf8::{decode_utf8, valid_utf8};
use crate::order::{
    chars_before, chars_before_exec, lemma_listing_unique, lemma_sorts_before_irreflexive, sorts_before,
    sorts_before_bytes, strictly_sorted, views,
};
use crate::text::chars_of;
use crate::tree::copy_bytes;
use vstd::prelude::*;

verus! {

/// How many times `d` occurs.
pub open spec fn count_in(s: Seq<Seq<u8>>, d: Seq<u8>) -> nat
    decreases s.len(),
{
    if s.len() == 0 {
        0
    } else {
        count_in(s.drop_last(), d) + if s.last() == d { 1nat } else { 0nat }
    }
}

proof fn lemma_count_in_bound(s: Seq<Seq<u8>>, d: Seq<u8>)
    ensures
        count_in(s, d) <= s.len(),
        count_in(s, d) > 0 <==> s.contains(d),
    decreases s.len(),
{
    if s.len() > 0 {
        lemma_count_in_bound(s.drop_last(), d);
        if s.drop_last().contains(d) {
            let k = choose|k: int| 0 <= k < s.drop_last().len() && s.drop_last()[k] == d;
            assert(s[k] == d);
        }
        if s.contains(d) && s.last() != d {
            let k = choose|k: int| 0 <= k < s.len() && s[k] == d;
            assert(k < s.len() - 1);
            assert(s.drop_last()[k] == d);
        }
        if s.last() == d {
            assert(s[s.len() - 1] == d);
        }
    }
}

proof fn lemma_count_in_push(s: Seq<Seq<u8>>, x: Seq<u8>)
    ensures
        forall|e: Seq<u8>| #[trigger] count_in(s.push(x), e) == count_in(s, e) + if x == e { 1nat } else { 0nat },
{
    assert(s.push(x).drop_last() =~= s);
}

/// The distinct digests with their multiplicities, in byte order.
pub open spec fn multiplicities_ok(s: Seq<Seq<u8>>, m: Seq<(Vec<u8>, u64)>) -> bool {
    &&& strictly_sorted(m.map_values(|x: (Vec<u8>, u64)| x.0@))
    &&& forall|d: Seq<u8>| #![trigger count_in(s, d)] (exists|t: int| 0 <= t < m.len() && (#[trigger] m[t]).0@ == d) <==> count_in(s, d) > 0
    &&& forall|t: int| 0 <= t < m.len() ==> (#[trigger] m[t]).1 == count_in(s, m[t].0@)
}

/// The multiplicities a list of groups records, added up.
pub open spec fn total(m: Seq<(Vec<u8>, u64)>) -> nat
    decreases m.len(),
{
    if m.len() == 0 {
        0
    } else {
        total(m.drop_last()) + m.last().1 as nat
    }
}

/// How often `d` occurs among `s`, summed over a list of digests.
spec fn counted(s: Seq<Seq<u8>>, keys: Seq<Seq<u8>>) -> nat
    decreases keys.len(),
{
    if keys.len() == 0 {
        0
    } else {
        counted(s, keys.drop_last()) + count_in(s, keys.last())
    }
}

/// How many of `keys` are `x`.
spec fn hits(keys: Seq<Seq<u8>>, x: Seq<u8>) -> nat
    decreases keys.len(),
{
    if keys.len() == 0 {
        0
    } else {
        hits(keys.drop_last(), x) + if keys.last() == x { 1nat } else { 0nat }
    }
}

proof fn lemma_counted_push(s: Seq<Seq<u8>>, keys: Seq<Seq<u8>>, x: Seq<u8>)
    ensures
        counted(s.push(x), keys) == counted(s, keys) + hits(keys, x),
    decreases keys.len(),
{
    lemma_count_in_push(s, x);
    if keys.len() > 0 {
        lemma_counted_push(s, keys.drop_last(), x);
    }
}

proof fn lemma_counted_empty(keys: Seq<Seq<u8>>)
    ensures
        counted(Seq::empty(), keys) == 0,
    decreases keys.len(),
{
    if keys.len() > 0 {
        lemma_counted_empty(keys.drop_last());
    }
}

proof fn lemma_hits_distinct(keys: Seq<Seq<u8>>, x: Seq<u8>)
    requires
        strictly_sorted(keys),
        keys.contains(x),
    ensures
        hits(keys, x) == 1,
    decreases keys.len(),
{
    let n = keys.len() - 1;
    let d = keys.drop_last();
    assert(strictly_sorted(d)) by {
        assert forall|i: int, j: int| 0 <= i < j < d.len() implies sorts_before(#[trigger] d[i], #[trigger] d[j]) by {
            assert(d[i] == keys[i] && d[j] == keys[j]);
        }
    }
    if keys.last() == x {
        if d.contains(x) {
            let i = choose|i: int| 0 <= i < d.len() && d[i] == x;
            assert(sorts_before(keys[i], keys[n]));
            lemma_sorts_before_irreflexive(x);
        }
        lemma_hits_absent(d, x);
    } else {
        let i = choose|i: int| 0 <= i < keys.len() && keys[i] == x;
        assert(d[i] == x);
        lemma_hits_distinct(d, x);
    }
}

proof fn lemma_hits_absent(keys: Seq<Seq<u8>>, x: Seq<u8>)
    requires
        !keys.contains(x),
    ensures
        hits(keys, x) == 0,
    decreases keys.len(),
{
    if keys.len() > 0 {
        assert(keys[keys.len() - 1] != x);
        let d = keys.drop_last();
        assert(!d.contains(x)) by {
            if d.contains(x) {
                let i = choose|i: int| 0 <= i < d.len() && d[i] == x;
                assert(keys[i] == x);
            }
        }
        lemma_hits_absent(d, x);
    }
}

/// Counting every element of `s` under a sorted list of keys that holds each
/// of them counts all of `s`.
proof fn lemma_counted_all(s: Seq<Seq<u8>>, keys: Seq<Seq<u8>>)
    requires
        strictly_sorted(keys),
        forall|k: int| 0 <= k < s.len() ==> keys.contains(#[trigger] s[k]),
    ensures
        counted(s, keys) == s.len(),
    decreases s.len(),
{
    if s.len() == 0 {
        lemma_counted_empty(keys);
        assert(s =~= Seq::<Seq<u8>>::empty());
    } else {
        let p = s.drop_last();
        assert forall|k: int| 0 <= k < p.len() implies keys.contains(#[trigger] p[k]) by {
            assert(p[k] == s[k]);
        }
        lemma_counted_all(p, keys);
        assert(keys.contains(s[s.len() - 1]));
        lemma_hits_distinct(keys, s.last());
        lemma_counted_push(p, keys, s.last());
        assert(p.push(s.last()) =~= s);
    }
}

proof fn lemma_total_is_counted(s: Seq<Seq<u8>>, m: Seq<(Vec<u8>, u64)>)
    requires
        forall|t: int| 0 <= t < m.len() ==> (#[trigger] m[t]).1 == count_in(s, m[t].0@),
    ensures
        total(m) == counted(s, m.map_values(|x: (Vec<u8>, u64)| x.0@)),
    decreases m.len(),
{
    if m.len() > 0 {
        let d = m.drop_last();
        assert forall|t: int| 0 <= t < d.len() implies (#[trigger] d[t]).1 == count_in(s, d[t].0@) by {
            assert(d[t] == m[t]);
        }
        lemma_total_is_counted(s, d);
        assert(m.map_values(|x: (Vec<u8>, u64)| x.0@).drop_last() =~= d.map_values(|x: (Vec<u8>, u64)| x.0@));
    }
}

/// The multiplicities add up to the number of digests: every digest is
/// counted in exactly one group.
pub proof fn lemma_multiplicities_total(s: Seq<Seq<u8>>, m: Seq<(Vec<u8>, u64)>)
    requires
        multiplicities_ok(s, m),
    ensures
        total(m) == s.len(),
{
    let keys = m.map_values(|x: (Vec<u8>, u64)| x.0@);
    assert forall|k: int| 0 <= k < s.len() implies keys.contains(#[trigger] s[k]) by {
        let d = s[k];
        lemma_count_in_bound(s, d);
        assert(s.contains(d));
        assert(count_in(s, d) > 0);
        let t = choose|t: int| 0 <= t < m.len() && (#[trigger] m[t]).0@ == d;
        assert(keys[t] == d);
    }
    lemma_total_is_counted(s, m);
    lemma_counted_all(s, keys);
}

proof fn lemma_count_in_multiset(s: Seq<Seq<u8>>, d: Seq<u8>)
    ensures
        count_in(s, d) == s.to_multiset().count(d),
    decreases s.len(),
{
    broadcast use vstd::seq_lib::to_multiset_build, vstd::multiset::group_multiset_axioms;
    if s.len() == 0 {
        s.to_multiset_ensures();
        assert(!s.contains(d));
    } else {
        lemma_count_in_multiset(s.drop_last(), d);
        assert(s.drop_last().push(s.last()) =~= s);
    }
}

/// Digests in any order give the same groups: the result depends only on how
/// often each digest occurs.
pub proof fn lemma_multiplicities_ignore_order(
    s: Seq<Seq<u8>>,
    m: Seq<(Vec<u8>, u64)>,
    s2: Seq<Seq<u8>>,
    m2: Seq<(Vec<u8>, u64)>,
)
    requires
        multiplicities_ok(s, m),
        multiplicities_ok(s2, m2),
        s.to_multiset() == s2.to_multiset(),
    ensures
        m.map_values(|x: (Vec<u8>, u64)| (x.0@, x.1)) == m2.map_values(|x: (Vec<u8>, u64)| (x.0@, x.1)),
{
    let k1 = m.map_values(|x: (Vec<u8>, u64)| x.0@);
    let k2 = m2.map_values(|x: (Vec<u8>, u64)| x.0@);
    assert forall|d: Seq<u8>| #![trigger count_in(s, d)] count_in(s, d) == count_in(s2, d) by {
        lemma_count_in_multiset(s, d);
        lemma_count_in_multiset(s2, d);
    }
    assert(k1.to_set() =~= k2.to_set()) by {
        assert forall|d: Seq<u8>| k1.to_set().contains(d) implies k2.to_set().contains(d) by {
            let t = choose|t: int| 0 <= t < k1.len() && k1[t] == d;
            assert(m[t].0@ == d);
            assert(count_in(s, d) > 0);
            assert(count_in(s2, d) > 0);
            let u = choose|u: int| 0 <= u < m2.len() && (#[trigger] m2[u]).0@ == d;
            assert(k2[u] == d);
        }
        assert forall|d: Seq<u8>| k2.to_set().contains(d) implies k1.to_set().contains(d) by {
            let t = choose|t: int| 0 <= t < k2.len() && k2[t] == d;
            assert(m2[t].0@ == d);
            assert(count_in(s2, d) > 0);
            assert(count_in(s, d) > 0);
            let u = choose|u: int| 0 <= u < m.len() && (#[trigger] m[u]).0@ == d;
            assert(k1[u] == d);
        }
    }
    lemma_listing_unique(k1, k2);
    assert(m.map_values(|x: (Vec<u8>, u64)| (x.0@, x.1)) =~= m2.map_values(|x: (Vec<u8>, u64)| (x.0@, x.1))) by {
        assert forall|t: int| 0 <= t < m.len() implies m[t].0@ == m2[t].0@ && m[t].1 == m2[t].1 by {
            assert(k1[t] == k2[t]);
        }
    }
}

/// The sorted distinct digests with their multiplicities.
pub fn source_multiplicities(digests: &Vec<Vec<u8>>) -> (m: Vec<(Vec<u8>, u64)>)
    ensures
        multiplicities_ok(views(digests@), m@),
{
    let mut m: Vec<(Vec<u8>, u64)> = Vec::new();
    for k in 0..digests.len()
        invariant
            multiplicities_ok(views(digests@.take(k as int)), m@),
    {
        let d = &digests[k];
        let ghost before = m@;
        let ghost prev = views(digests@.take(k as int));
        let ghost next = views(digests@.take(k + 1));
        assert(next =~= prev.push(d@));
        proof {
            lemma_count_in_bound(prev, d@);
            lemma_count_in_bound(next, d@);
            lemma_count_in_push(prev, d@);
            assert(count_in(prev, d@) <= k);
        }
        let mut p: usize = 0;
        while p < m.len() && sorts_before_bytes(&m[p].0, d)
            invariant
                m@ == before,
                p <= m@.len(),
                forall|t: int| 0 <= t < p ==> sorts_before((#[trigger] before[t]).0@, d@),
            decreases m@.len() - p,
        {
            p = p + 1;
        }
        let ghost keys = before.map_values(|x: (Vec<u8>, u64)| x.0@);
        if p < m.len() && same_bytes(&m[p].0, d) {
            assert(before[p as int].1 == count_in(prev, d@));
            let c = m[p].1 + 1;
            let entry = (copy_bytes(&m[p].0), c);
            m.set(p, entry);
            proof {
                assert(m@.map_values(|x: (Vec<u8>, u64)| x.0@) =~= keys);
                assert forall|e: Seq<u8>| #![trigger count_in(next, e)] (exists|t: int| 0 <= t < m@.len() && (#[trigger] m@[t]).0@ == e) <==> count_in(next, e) > 0 by {
                    if exists|t: int| 0 <= t < m@.len() && (#[trigger] m@[t]).0@ == e {
                        let t = choose|t: int| 0 <= t < m@.len() && (#[trigger] m@[t]).0@ == e;
                        assert(before[t].0@ == e);
                        assert(count_in(prev, e) > 0);
                    }
                    if count_in(next, e) > 0 && e != d@ {
                        assert(count_in(prev, e) > 0);
                        let t = choose|t: int| 0 <= t < before.len() && (#[trigger] before[t]).0@ == e;
                        assert(m@[t].0@ == e);
                    }
                    if e == d@ {
                        assert(m@[p as int].0@ == e);
                    }
                }
                assert forall|t: int| 0 <= t < m@.len() implies (#[trigger] m@[t]).1 == count_in(next, m@[t].0@) by {
                    if t != p {
                        assert(m@[t] == before[t]);
                        assert(keys[t] != keys[p as int]) by {
                            if t < p {
                                crate::order::lemma_sorts_before_irreflexive(keys[t]);
                            } else {
                                crate::order::lemma_sorts_before_irreflexive(keys[t]);
                            }
                        }
                    }
                }
            }
        } else {
            proof {
                assert(count_in(prev, d@) == 0) by {
                    if count_in(prev, d@) > 0 {
                        let t = choose|t: int| 0 <= t < before.len() && (#[trigger] before[t]).0@ == d@;
                        if t < p {
                            crate::order::lemma_sorts_before_irreflexive(d@);
                        } else if t > p {
                            assert(!sorts_before(keys[p as int], d@));
                            crate::order::lemma_sorts_before_total(keys[p as int], d@);
                            assert(sorts_before(keys[p as int], keys[t]));
                            crate::order::lemma_sorts_before_transitive(d@, keys[p as int], keys[t]);
                            crate::order::lemma_sorts_before_irreflexive(d@);
                        }
                    }
                }
                if p < before.len() {
                    crate::order::lemma_sorts_before_total(keys[p as int], d@);
                }
            }
            let entry = (copy_bytes(d), 1u64);
            m.insert(p, entry);
            proof {
                let nk = m@.map_values(|x: (Vec<u8>, u64)| x.0@);
                assert(nk =~= keys.insert(p as int, d@));
                assert forall|i: int, j: int| 0 <= i < j < nk.len() implies sorts_before(#[trigger] nk[i], #[trigger] nk[j]) by {
                    if j < p {
                        assert(nk[i] == keys[i] && nk[j] == keys[j]);
                    } else if j == p {
                        assert(nk[i] == keys[i]);
                    } else if i == p {
                        assert(nk[j] == keys[j - 1]);
                        if j - 1 > p {
                            crate::order::lemma_sorts_before_transitive(d@, keys[p as int], keys[j - 1]);
                        }
                    } else if i < p {
                        assert(nk[i] == keys[i] && nk[j] == keys[j - 1]);
                    } else {
                        assert(nk[i] == keys[i - 1] && nk[j] == keys[j - 1]);
                    }
                }
                assert forall|e: Seq<u8>| #![trigger count_in(next, e)] (exists|t: int| 0 <= t < m@.len() && (#[trigger] m@[t]).0@ == e) <==> count_in(next, e) > 0 by {
                    if exists|t: int| 0 <= t < m@.len() && (#[trigger] m@[t]).0@ == e {
                        let t = choose|t: int| 0 <= t < m@.len() && (#[trigger] m@[t]).0@ == e;
                        if t < p {
                            assert(before[t].0@ == e);
                        } else if t > p {
                            assert(before[t - 1].0@ == e);
                        }
                    }
                    if count_in(next, e) > 0 {
                        if e == d@ {
                            assert(m@[p as int].0@ == e);
                        } else {
                            let t = choose|t: int| 0 <= t < before.len() && (#[trigger] before[t]).0@ == e;
                            if t < p {
                                assert(m@[t].0@ == e);
                            } else {
                                assert(m@[t + 1].0@ == e);
                            }
                        }
                    }
                }
                assert forall|t: int| 0 <= t < m@.len() implies (#[trigger] m@[t]).1 == count_in(next, m@[t].0@) by {
                    if t < p {
                        assert(m@[t] == before[t]);
                        assert(keys[t] != d@) by {
                            crate::order::lemma_sorts_before_irreflexive(d@);
                        }
                    } else if t > p {
                        assert(m@[t] == before[t - 1]);
                        assert(keys[t - 1] != d@) by {
                            if keys[t - 1] == d@ {
                                assert(count_in(prev, d@) > 0);
                            }
                        }
                    }
                }
            }
        }
    }
    assert(digests@.take(digests@.len() as int) =~= digests@);
    m
}


/// The finding a defective claim raises.
#[derive(Clone, Copy, Debug, PartialEq, Eq, Structural)]
pub enum ClaimFindingKind {
    ClaimBroken,
    ClaimTargetMissing,
}

impl ClaimFindingKind {
    /// The kind's place in the finding order.
    pub open spec fn rank(self) -> nat {
        match self {
            ClaimFindingKind::ClaimBroken => 0,
            ClaimFindingKind::ClaimTargetMissing => 1,
        }
    }
}

/// The finding a claim's answer raises; an attested claim raises none.
pub open spec fn verdict_kind(v: ClaimVerdict) -> Option<ClaimFindingKind> {
    match v {
        ClaimVerdict::Attested => None,
        ClaimVerdict::Broken { .. } => Some(ClaimFindingKind::ClaimBroken),
        ClaimVerdict::TargetMissing(_) => Some(ClaimFindingKind::ClaimTargetMissing),
    }
}

/// What a defective claim observed, as reported: a differing line, or why
/// the target could not answer.
pub open spec fn observed_name(v: ClaimVerdict) -> Seq<char> {
    match v {
        ClaimVerdict::Broken { .. } => "line-differs"@,
        ClaimVerdict::TargetMissing(ClaimMissingReason::Absent) => "target-absent"@,
        ClaimVerdict::TargetMissing(ClaimMissingReason::NotABlob) => "target-not-a-blob"@,
        ClaimVerdict::TargetMissing(ClaimMissingReason::LfsPointer) => "target-lfs-pointer"@,
        ClaimVerdict::TargetMissing(ClaimMissingReason::LineOutOfRange) => "line-out-of-range"@,
        ClaimVerdict::Attested => ""@,
    }
}

/// The digest of the line a broken claim observed.
pub open spec fn observed_digest_of(v: ClaimVerdict) -> Option<Seq<u8>> {
    match v {
        ClaimVerdict::Broken { observed_digest, .. } => Some(observed_digest@),
        _ => None,
    }
}

/// The line a broken claim observed.
pub open spec fn observed_line_of(v: ClaimVerdict) -> Option<Seq<u8>> {
    match v {
        ClaimVerdict::Broken { observed, .. } => Some(observed@),
        _ => None,
    }
}

/// A group's key: document, claim name, finding kind.
pub type ClaimKey = (Seq<u8>, Seq<char>, ClaimFindingKind);

/// The key a defective claim groups under.
pub open spec fn claim_key(o: ClaimOutcome) -> Option<ClaimKey> {
    match verdict_kind(o.verdict) {
        Some(k) => Some((o.document@, o.name@, k)),
        None => None,
    }
}

/// Whether one key sorts before another: by document, then name, then kind.
pub open spec fn claim_key_before(a: ClaimKey, b: ClaimKey) -> bool {
    ||| sorts_before(a.0, b.0)
    ||| (a.0 == b.0 && chars_before(a.1, b.1))
    ||| (a.0 == b.0 && a.1 == b.1 && a.2.rank() < b.2.rank())
}

proof fn lemma_claim_key_order(a: ClaimKey, b: ClaimKey, c: ClaimKey)
    ensures
        !claim_key_before(a, a),
        claim_key_before(a, b) && claim_key_before(b, c) ==> claim_key_before(a, c),
        a != b ==> claim_key_before(a, b) || claim_key_before(b, a),
{
    crate::order::lemma_sorts_before_irreflexive(a.0);
    crate::order::lemma_chars_before_irreflexive(a.1);
    if sorts_before(a.0, b.0) && sorts_before(b.0, c.0) {
        crate::order::lemma_sorts_before_transitive(a.0, b.0, c.0);
    }
    if chars_before(a.1, b.1) && chars_before(b.1, c.1) {
        crate::order::lemma_chars_before_transitive(a.1, b.1, c.1);
    }
    if a.0 != b.0 {
        crate::order::lemma_sorts_before_total(a.0, b.0);
    } else if a.1 != b.1 {
        crate::order::lemma_chars_before_total(a.1, b.1);
    }
}

/// How many claims group under `k`.
pub open spec fn key_count(v: Seq<ClaimOutcome>, k: ClaimKey) -> nat
    decreases v.len(),
{
    if v.len() == 0 {
        0
    } else {
        key_count(v.drop_last(), k) + if claim_key(v.last()) == Some(k) { 1nat } else { 0nat }
    }
}

/// Whether one span sorts before another.
pub open spec fn span_before(a: (usize, usize), b: (usize, usize)) -> bool {
    a.0 < b.0 || (a.0 == b.0 && a.1 < b.1)
}

/// The representative of a group: the first of its claims with the least
/// span.
pub open spec fn representative(v: Seq<ClaimOutcome>, k: ClaimKey) -> Option<int>
    decreases v.len(),
{
    if v.len() == 0 {
        None
    } else {
        let r = representative(v.drop_last(), k);
        let i = v.len() - 1;
        if claim_key(v[i]) == Some(k) && (r is None || span_before(v[i].span, v[r.unwrap()].span)) {
            Some(i)
        } else {
            r
        }
    }
}

/// The source digests of a group's claims, in order.
pub open spec fn member_digests(v: Seq<ClaimOutcome>, k: ClaimKey) -> Seq<Seq<u8>>
    decreases v.len(),
{
    if v.len() == 0 {
        seq![]
    } else {
        member_digests(v.drop_last(), k) + if claim_key(v.last()) == Some(k) {
            seq![v.last().source_digest@]
        } else {
            seq![]
        }
    }
}

/// One document's defective claims under one name and kind: the group a
/// claim finding stands for.
pub struct ClaimGroup {
    pub kind: ClaimFindingKind,
    pub carrier: ClaimCarrier,
    pub document: Vec<u8>,
    pub name: String,
    pub member_count: u64,
    pub sources: Vec<(Vec<u8>, u64)>,
    pub representative_span: (usize, usize),
    pub target_path: Vec<u8>,
    pub line: u64,
    pub expected_digest: Vec<u8>,
    pub observed: &'static str,
    pub observed_digest: Option<Vec<u8>>,
    pub observed_line: Option<Vec<u8>>,
}

/// A group's key.
pub open spec fn group_key(g: ClaimGroup) -> ClaimKey {
    (g.document@, g.name@, g.kind)
}

/// Optional bytes as values.
pub open spec fn opt_bytes(o: Option<Vec<u8>>) -> Option<Seq<u8>> {
    match o {
        Some(b) => Some(b@),
        None => None,
    }
}

/// A group as its claims make it: their count, their representative's
/// fields, and the multiplicities of their source digests.
pub open spec fn group_ok(v: Seq<ClaimOutcome>, g: ClaimGroup) -> bool {
    let k = group_key(g);
    &&& representative(v, k) is Some
    &&& {
        let o = v[representative(v, k).unwrap()];
        &&& g.member_count == key_count(v, k)
        &&& g.carrier == o.carrier
        &&& g.representative_span == o.span
        &&& g.target_path@ == o.path@
        &&& g.line == o.line
        &&& g.expected_digest@ == o.expected_digest@
        &&& g.observed@ == observed_name(o.verdict)
        &&& opt_bytes(g.observed_digest) == observed_digest_of(o.verdict)
        &&& opt_bytes(g.observed_line) == observed_line_of(o.verdict)
    }
    &&& multiplicities_ok(member_digests(v, k), g.sources@)
}


/// The finding a claim's answer raises.
fn kind_of(v: &ClaimVerdict) -> (r: Option<ClaimFindingKind>)
    ensures
        r == verdict_kind(*v),
{
    match v {
        ClaimVerdict::Attested => None,
        ClaimVerdict::Broken { .. } => Some(ClaimFindingKind::ClaimBroken),
        ClaimVerdict::TargetMissing(_) => Some(ClaimFindingKind::ClaimTargetMissing),
    }
}

/// Whether claim `i`'s key sorts before claim `j`'s; both are defective.
fn key_before(v: &Vec<ClaimOutcome>, i: usize, j: usize) -> (r: bool)
    requires
        i < v@.len(),
        j < v@.len(),
        claim_key(v@[i as int]) is Some,
        claim_key(v@[j as int]) is Some,
    ensures
        r == claim_key_before(claim_key(v@[i as int]).unwrap(), claim_key(v@[j as int]).unwrap()),
{
    let a = &v[i];
    let b = &v[j];
    let ka = kind_of(&a.verdict).unwrap();
    let kb = kind_of(&b.verdict).unwrap();
    if sorts_before_bytes(&a.document, &b.document) {
        return true;
    }
    if !same_bytes(&a.document, &b.document) {
        return false;
    }
    let na = chars_of(a.name.as_str());
    let nb = chars_of(b.name.as_str());
    if chars_before_exec(&na, &nb) {
        return true;
    }
    if a.name != b.name {
        return false;
    }
    ka == ClaimFindingKind::ClaimBroken && kb == ClaimFindingKind::ClaimTargetMissing
}

/// Whether claims `i` and `j` group together; both are defective.
fn same_key(v: &Vec<ClaimOutcome>, i: usize, j: usize) -> (r: bool)
    requires
        i < v@.len(),
        j < v@.len(),
        claim_key(v@[i as int]) is Some,
        claim_key(v@[j as int]) is Some,
    ensures
        r == (claim_key(v@[i as int]) == claim_key(v@[j as int])),
{
    let a = &v[i];
    let b = &v[j];
    kind_of(&a.verdict) == kind_of(&b.verdict) && same_bytes(&a.document, &b.document) && a.name == b.name
}

/// Whether two spans are ordered.
fn span_less(a: (usize, usize), b: (usize, usize)) -> (r: bool)
    ensures
        r == span_before(a, b),
{
    a.0 < b.0 || (a.0 == b.0 && a.1 < b.1)
}

/// The keys of the defective claims in key order, each as the position of
/// one claim carrying it.
fn group_keys(v: &Vec<ClaimOutcome>) -> (keys: Vec<usize>)
    ensures
        forall|t: int| 0 <= t < keys@.len() ==> (#[trigger] keys@[t]) < v@.len() && claim_key(v@[keys@[t] as int]) is Some,
        forall|t1: int, t2: int| 0 <= t1 < t2 < keys@.len() ==> claim_key_before(
            claim_key(v@[(#[trigger] keys@[t1]) as int]).unwrap(),
            claim_key(v@[(#[trigger] keys@[t2]) as int]).unwrap(),
        ),
        forall|w: int| 0 <= w < v@.len() && (#[trigger] claim_key(v@[w])) is Some ==> exists|t: int| 0 <= t < keys@.len() && claim_key(v@[(#[trigger] keys@[t]) as int]) == claim_key(v@[w]),
{
    let mut keys: Vec<usize> = Vec::new();
    for w in 0..v.len()
        invariant
            forall|t: int| 0 <= t < keys@.len() ==> (#[trigger] keys@[t]) < v@.len() && claim_key(v@[keys@[t] as int]) is Some,
            forall|t1: int, t2: int| 0 <= t1 < t2 < keys@.len() ==> claim_key_before(
                claim_key(v@[(#[trigger] keys@[t1]) as int]).unwrap(),
                claim_key(v@[(#[trigger] keys@[t2]) as int]).unwrap(),
            ),
            forall|x: int| 0 <= x < w && (#[trigger] claim_key(v@[x])) is Some ==> exists|t: int| 0 <= t < keys@.len() && claim_key(v@[(#[trigger] keys@[t]) as int]) == claim_key(v@[x]),
    {
        if kind_of(&v[w].verdict).is_some() {
            let ghost before = keys@;
            let ghost kw = claim_key(v@[w as int]).unwrap();
            let mut p: usize = 0;
            while p < keys.len() && key_before(v, keys[p], w)
                invariant
                    keys@ == before,
                    p <= keys@.len(),
                    w < v@.len(),
                    kw == claim_key(v@[w as int]).unwrap(),
                    claim_key(v@[w as int]) is Some,
                    forall|t: int| 0 <= t < keys@.len() ==> (#[trigger] keys@[t]) < v@.len() && claim_key(v@[keys@[t] as int]) is Some,
                    forall|t: int| 0 <= t < p ==> claim_key_before(claim_key(v@[(#[trigger] before[t]) as int]).unwrap(), kw),
                decreases keys@.len() - p,
            {
                p = p + 1;
            }
            if p < keys.len() && same_key(v, keys[p], w) {
                assert(claim_key(v@[before[p as int] as int]) == claim_key(v@[w as int]));
            } else {
                proof {
                    if p < before.len() {
                        let kp = claim_key(v@[before[p as int] as int]).unwrap();
                        lemma_claim_key_order(kp, kw, kw);
                    }
                }
                keys.insert(p, w);
                assert(keys@ =~= before.insert(p as int, w));
                assert forall|t1: int, t2: int| 0 <= t1 < t2 < keys@.len() implies claim_key_before(
                    claim_key(v@[(#[trigger] keys@[t1]) as int]).unwrap(),
                    claim_key(v@[(#[trigger] keys@[t2]) as int]).unwrap(),
                ) by {
                    if t2 < p {
                        assert(keys@[t1] == before[t1] && keys@[t2] == before[t2]);
                    } else if t2 == p {
                        assert(keys@[t1] == before[t1]);
                    } else if t1 == p {
                        assert(keys@[t2] == before[t2 - 1]);
                        if t2 - 1 > p {
                            let kp = claim_key(v@[before[p as int] as int]).unwrap();
                            let kt = claim_key(v@[before[t2 - 1] as int]).unwrap();
                            assert(claim_key_before(kp, kt));
                            lemma_claim_key_order(kw, kp, kt);
                        }
                    } else if t1 < p {
                        assert(keys@[t1] == before[t1] && keys@[t2] == before[t2 - 1]);
                    } else {
                        assert(keys@[t1] == before[t1 - 1] && keys@[t2] == before[t2 - 1]);
                    }
                }
                assert forall|t: int| 0 <= t < keys@.len() implies (#[trigger] keys@[t]) < v@.len() && claim_key(v@[keys@[t] as int]) is Some by {
                    if t < p {
                        assert(keys@[t] == before[t]);
                    } else if t > p {
                        assert(keys@[t] == before[t - 1]);
                    }
                }
            }
            assert forall|x: int| 0 <= x < w + 1 && (#[trigger] claim_key(v@[x])) is Some implies exists|t: int| 0 <= t < keys@.len() && claim_key(v@[(#[trigger] keys@[t]) as int]) == claim_key(v@[x]) by {
                if x == w {
                    if keys@.len() > before.len() {
                        assert(keys@[p as int] == w);
                    } else {
                        assert(keys@[p as int] == before[p as int]);
                    }
                } else {
                    let t = choose|t: int| 0 <= t < before.len() && claim_key(v@[(#[trigger] before[t]) as int]) == claim_key(v@[x]);
                    if keys@.len() == before.len() {
                        assert(keys@[t] == before[t]);
                    } else if t < p {
                        assert(keys@[t] == before[t]);
                    } else {
                        assert(keys@[t + 1] == before[t]);
                    }
                }
            }
        }
    }
    keys
}


/// The representative as an optional position.
pub open spec fn opt_pos(b: Option<usize>) -> Option<int> {
    match b {
        Some(x) => Some(x as int),
        None => None,
    }
}

/// One group's claim count, representative and source digests.
fn aggregate(v: &Vec<ClaimOutcome>, key_at: usize) -> (r: (usize, usize, Vec<Vec<u8>>))
    requires
        key_at < v@.len(),
        claim_key(v@[key_at as int]) is Some,
    ensures
        r.0 == key_count(v@, claim_key(v@[key_at as int]).unwrap()),
        representative(v@, claim_key(v@[key_at as int]).unwrap()) == Some(r.1 as int),
        r.1 < v@.len(),
        views(r.2@) == member_digests(v@, claim_key(v@[key_at as int]).unwrap()),
{
    let ghost k = claim_key(v@[key_at as int]).unwrap();
    let mut count: usize = 0;
    let mut best: Option<usize> = None;
    let mut ds: Vec<Vec<u8>> = Vec::new();
    for w in 0..v.len()
        invariant
            key_at < v@.len(),
            k == claim_key(v@[key_at as int]).unwrap(),
            claim_key(v@[key_at as int]) is Some,
            count <= w,
            count == key_count(v@.take(w as int), k),
            opt_pos(best) == representative(v@.take(w as int), k),
            best matches Some(b) ==> b < w,
            w > key_at ==> best is Some,
            views(ds@) == member_digests(v@.take(w as int), k),
    {
        let ghost prefix = v@.take(w + 1);
        assert(prefix.drop_last() =~= v@.take(w as int));
        assert(prefix.last() == v@[w as int]);
        assert(prefix[w as int] == v@[w as int]);
        if let Some(b) = best {
            assert(prefix[b as int] == v@[b as int]);
        }
        if kind_of(&v[w].verdict).is_some() && same_key(v, key_at, w) {
            count = count + 1;
            let replace = match best {
                None => true,
                Some(b) => span_less(v[w].span, v[b].span),
            };
            if replace {
                best = Some(w);
            }
            let ghost pre = views(ds@);
            ds.push(copy_bytes(&v[w].source_digest));
            assert(views(ds@) =~= pre.push(v@[w as int].source_digest@));
        }
    }
    assert(v@.take(v@.len() as int) =~= v@);
    (count, best.unwrap(), ds)
}

/// What a defective claim observed, as reported.
fn observed_of(v: &ClaimVerdict) -> (r: &'static str)
    ensures
        r@ == observed_name(*v),
{
    match v {
        ClaimVerdict::Broken { .. } => "line-differs",
        ClaimVerdict::TargetMissing(ClaimMissingReason::Absent) => "target-absent",
        ClaimVerdict::TargetMissing(ClaimMissingReason::NotABlob) => "target-not-a-blob",
        ClaimVerdict::TargetMissing(ClaimMissingReason::LfsPointer) => "target-lfs-pointer",
        ClaimVerdict::TargetMissing(ClaimMissingReason::LineOutOfRange) => "line-out-of-range",
        ClaimVerdict::Attested => "",
    }
}

/// The group of the claims keyed like claim `key_at`.
fn build_group(v: &Vec<ClaimOutcome>, key_at: usize) -> (g: ClaimGroup)
    requires
        key_at < v@.len(),
        claim_key(v@[key_at as int]) is Some,
    ensures
        group_key(g) == claim_key(v@[key_at as int]).unwrap(),
        group_ok(v@, g),
{
    let ghost k = claim_key(v@[key_at as int]).unwrap();
    let (count, best, ds) = aggregate(v, key_at);
    let sources = source_multiplicities(&ds);
    proof {
        lemma_key_count_bound(v@, k);
        lemma_representative_keyed(v@, k);
    }
    let o = &v[best];
    let kind = kind_of(&o.verdict).unwrap();
    let (observed_digest, observed_line) = match &o.verdict {
        ClaimVerdict::Broken { observed_digest, observed } => (Some(copy_bytes(observed_digest)), Some(copy_bytes(observed))),
        _ => (None, None),
    };
    ClaimGroup {
        kind,
        carrier: o.carrier,
        document: copy_bytes(&o.document),
        name: o.name.clone(),
        member_count: count as u64,
        sources,
        representative_span: o.span,
        target_path: copy_bytes(&o.path),
        line: o.line,
        expected_digest: copy_bytes(&o.expected_digest),
        observed: observed_of(&o.verdict),
        observed_digest,
        observed_line,
    }
}

proof fn lemma_key_count_bound(v: Seq<ClaimOutcome>, k: ClaimKey)
    ensures
        key_count(v, k) <= v.len(),
    decreases v.len(),
{
    if v.len() > 0 {
        lemma_key_count_bound(v.drop_last(), k);
    }
}

proof fn lemma_representative_keyed(v: Seq<ClaimOutcome>, k: ClaimKey)
    ensures
        representative(v, k) matches Some(r) ==> 0 <= r < v.len() && claim_key(v[r]) == Some(k),
    decreases v.len(),
{
    if v.len() > 0 {
        lemma_representative_keyed(v.drop_last(), k);
        let r = representative(v.drop_last(), k);
        if let Some(x) = r {
            assert(v.drop_last()[x] == v[x]);
        }
    }
}

/// Groups the defective claims by document, claim name and kind, in that
/// order, keeping the first claim with the least span as the
/// representative; attested claims group nothing.
pub fn claim_groups(outcomes: &Vec<ClaimOutcome>) -> (r: Vec<ClaimGroup>)
    ensures
        forall|i: int, j: int| 0 <= i < j < r@.len() ==> claim_key_before(group_key(#[trigger] r@[i]), group_key(#[trigger] r@[j])),
        forall|i: int| 0 <= i < r@.len() ==> group_ok(outcomes@, #[trigger] r@[i]),
        forall|w: int| 0 <= w < outcomes@.len() && (#[trigger] claim_key(outcomes@[w])) is Some ==> exists|i: int| 0 <= i < r@.len() && Some(group_key(#[trigger] r@[i])) == claim_key(outcomes@[w]),
{
    let keys = group_keys(outcomes);
    let mut groups: Vec<ClaimGroup> = Vec::new();
    for t in 0..keys.len()
        invariant
            forall|x: int| 0 <= x < keys@.len() ==> (#[trigger] keys@[x]) < outcomes@.len() && claim_key(outcomes@[keys@[x] as int]) is Some,
            groups@.len() == t,
            forall|i: int| 0 <= i < t ==> group_ok(outcomes@, #[trigger] groups@[i]),
            forall|i: int| 0 <= i < t ==> group_key(#[trigger] groups@[i]) == claim_key(outcomes@[keys@[i] as int]).unwrap(),
    {
        let g = build_group(outcomes, keys[t]);
        groups.push(g);
    }
    assert forall|i: int, j: int| 0 <= i < j < groups@.len() implies claim_key_before(group_key(#[trigger] groups@[i]), group_key(#[trigger] groups@[j])) by {
        assert(claim_key_before(claim_key(outcomes@[keys@[i] as int]).unwrap(), claim_key(outcomes@[keys@[j] as int]).unwrap()));
    }
    assert forall|w: int| 0 <= w < outcomes@.len() && (#[trigger] claim_key(outcomes@[w])) is Some implies exists|i: int| 0 <= i < groups@.len() && Some(group_key(#[trigger] groups@[i])) == claim_key(outcomes@[w]) by {
        let t = choose|t: int| 0 <= t < keys@.len() && claim_key(outcomes@[(#[trigger] keys@[t]) as int]) == claim_key(outcomes@[w]);
        assert(group_key(groups@[t]) == claim_key(outcomes@[keys@[t] as int]).unwrap());
    }
    groups
}

/// The edit that would attest a lone broken claim: the document to edit, the
/// span to replace, and the definition to write there.
#[derive(Debug, PartialEq, Eq)]
pub struct ClaimFix {
    pub path: String,
    pub span: (usize, usize),
    pub replacement: String,
}

/// Whether a group gets an edit: one broken claim alone, whose observed line
/// was read, can be spelled as a quoted title, and whose target path and
/// document are UTF-8. Grouped members share one finding but not one edit, and
/// a target-missing claim has no derivable content.
pub open spec fn fixable(g: ClaimGroup) -> bool {
    &&& g.kind == ClaimFindingKind::ClaimBroken
    &&& g.member_count == 1
    &&& g.observed_line is Some
    &&& valid_utf8(g.observed_line.unwrap()@)
    &&& quotable(decode_utf8(g.observed_line.unwrap()@))
    &&& valid_utf8(g.target_path@)
    &&& valid_utf8(g.document@)
}

/// The edit for a lone broken claim: its definition respelled in its own
/// carrier with the observed line as the expected words, in place of the
/// representative's span.
pub fn claim_fix(g: &ClaimGroup) -> (r: Option<ClaimFix>)
    ensures
        r is Some <==> fixable(*g),
        r matches Some(f) ==> {
            &&& f.path@ == decode_utf8(g.document@)
            &&& f.span == g.representative_span
            &&& f.replacement@ == respelled(
                g.carrier,
                g.name@,
                decode_utf8(g.target_path@),
                g.line,
                decode_utf8(g.observed_line.unwrap()@),
            )
        },
{
    if g.kind != ClaimFindingKind::ClaimBroken || g.member_count != 1 {
        return None;
    }
    let observed = match &g.observed_line {
        Some(line) => line,
        None => {
            return None;
        },
    };
    let replacement = match claim_respelling(g.name.as_str(), g.target_path.as_slice(), g.line, observed.as_slice(), g.carrier) {
        Some(r) => r,
        None => {
            return None;
        },
    };
    let path = match utf8_text(g.document.as_slice()) {
        Some(p) => p.to_string(),
        None => {
            return None;
        },
    };
    Some(ClaimFix { path, span: g.representative_span, replacement })
}

} // verus!
