//! The byte order of paths and keys, and sorted listings of byte strings:
//! what an ordered set of paths walks in.

use vstd::prelude::*;

verus! {

/// Whether `a` sorts strictly before `b`, byte by byte.
pub open spec fn sorts_before(a: Seq<u8>, b: Seq<u8>) -> bool
    decreases a.len(),
{
    if a.len() == 0 {
        b.len() > 0
    } else if b.len() == 0 {
        false
    } else if a[0] != b[0] {
        a[0] < b[0]
    } else {
        sorts_before(a.skip(1), b.skip(1))
    }
}

/// Nothing sorts before itself.
pub proof fn lemma_sorts_before_irreflexive(a: Seq<u8>)
    ensures
        !sorts_before(a, a),
    decreases a.len(),
{
    if a.len() > 0 {
        lemma_sorts_before_irreflexive(a.skip(1));
    }
}

/// The order is transitive.
pub proof fn lemma_sorts_before_transitive(a: Seq<u8>, b: Seq<u8>, c: Seq<u8>)
    requires
        sorts_before(a, b),
        sorts_before(b, c),
    ensures
        sorts_before(a, c),
    decreases a.len(),
{
    if a.len() > 0 && b.len() > 0 && c.len() > 0 && a[0] == b[0] && b[0] == c[0] {
        lemma_sorts_before_transitive(a.skip(1), b.skip(1), c.skip(1));
    }
}

/// Of two different strings one sorts before the other.
pub proof fn lemma_sorts_before_total(a: Seq<u8>, b: Seq<u8>)
    requires
        a != b,
    ensures
        sorts_before(a, b) || sorts_before(b, a),
    decreases a.len(),
{
    if a.len() > 0 && b.len() > 0 && a[0] == b[0] {
        if a.skip(1) == b.skip(1) {
            assert(a =~= seq![a[0]] + a.skip(1));
            assert(b =~= seq![b[0]] + b.skip(1));
        }
        lemma_sorts_before_total(a.skip(1), b.skip(1));
    } else if a.len() == 0 && b.len() == 0 {
        assert(a =~= b);
    }
}

/// Whether `a` sorts strictly before `b`.
pub fn sorts_before_bytes(a: &Vec<u8>, b: &Vec<u8>) -> (r: bool)
    ensures
        r == sorts_before(a@, b@),
{
    let mut k: usize = 0;
    assert(a@.skip(0) =~= a@);
    assert(b@.skip(0) =~= b@);
    while k < a.len() && k < b.len() && a[k] == b[k]
        invariant
            k <= a@.len(),
            k <= b@.len(),
            sorts_before(a@, b@) == sorts_before(a@.skip(k as int), b@.skip(k as int)),
        decreases a@.len() - k,
    {
        assert(a@.skip(k as int).skip(1) =~= a@.skip(k + 1));
        assert(b@.skip(k as int).skip(1) =~= b@.skip(k + 1));
        k = k + 1;
    }
    if k == a.len() {
        k < b.len()
    } else if k == b.len() {
        false
    } else {
        a[k] < b[k]
    }
}

/// Each string sorts strictly before every later one: the listing is in
/// order and holds nothing twice.
pub open spec fn strictly_sorted(v: Seq<Seq<u8>>) -> bool {
    forall|i: int, j: int| 0 <= i < j < v.len() ==> sorts_before(#[trigger] v[i], #[trigger] v[j])
}

/// The byte strings a vector holds.
pub open spec fn views(v: Seq<Vec<u8>>) -> Seq<Seq<u8>> {
    v.map_values(|p: Vec<u8>| p@)
}

/// The ordered listing of a finite set of byte strings.
pub open spec fn listing(s: Set<Seq<u8>>) -> Seq<Seq<u8>> {
    choose|v: Seq<Seq<u8>>| strictly_sorted(v) && v.to_set() == s
}

/// Two ordered listings of one set are the same listing.
pub proof fn lemma_listing_unique(v: Seq<Seq<u8>>, w: Seq<Seq<u8>>)
    requires
        strictly_sorted(v),
        strictly_sorted(w),
        v.to_set() == w.to_set(),
    ensures
        v == w,
    decreases v.len(),
{
    if v.len() == 0 {
        if w.len() > 0 {
            assert(w.to_set().contains(w[0]));
        }
        assert(v =~= w);
    } else {
        assert(v.to_set().contains(v[0]));
        assert(w.len() > 0);
        assert(w.to_set().contains(w[0]));
        let i = choose|i: int| 0 <= i < w.len() && w[i] == v[0];
        let j = choose|j: int| 0 <= j < v.len() && v[j] == w[0];
        if i > 0 {
            assert(sorts_before(w[0], w[i]));
            if j > 0 {
                assert(sorts_before(v[0], v[j]));
                lemma_sorts_before_transitive(v[0], w[0], v[0]);
                lemma_sorts_before_irreflexive(v[0]);
            } else {
                lemma_sorts_before_irreflexive(v[0]);
            }
        }
        assert(v[0] == w[0]);
        let vt = v.drop_first();
        let wt = w.drop_first();
        assert(strictly_sorted(vt)) by {
            assert forall|a: int, b: int| 0 <= a < b < vt.len() implies sorts_before(#[trigger] vt[a], #[trigger] vt[b]) by {
                assert(vt[a] == v[a + 1] && vt[b] == v[b + 1]);
            }
        }
        assert(strictly_sorted(wt)) by {
            assert forall|a: int, b: int| 0 <= a < b < wt.len() implies sorts_before(#[trigger] wt[a], #[trigger] wt[b]) by {
                assert(wt[a] == w[a + 1] && wt[b] == w[b + 1]);
            }
        }
        assert(vt.to_set() =~= wt.to_set()) by {
            assert forall|x: Seq<u8>| vt.to_set().contains(x) implies wt.to_set().contains(x) by {
                let a = choose|a: int| 0 <= a < vt.len() && vt[a] == x;
                assert(v[a + 1] == x);
                assert(sorts_before(v[0], x));
                assert(w.to_set().contains(x));
                let b = choose|b: int| 0 <= b < w.len() && w[b] == x;
                if b == 0 {
                    lemma_sorts_before_irreflexive(x);
                }
                assert(wt[b - 1] == x);
            }
            assert forall|x: Seq<u8>| wt.to_set().contains(x) implies vt.to_set().contains(x) by {
                let a = choose|a: int| 0 <= a < wt.len() && wt[a] == x;
                assert(w[a + 1] == x);
                assert(sorts_before(w[0], x));
                assert(v.to_set().contains(x));
                let b = choose|b: int| 0 <= b < v.len() && v[b] == x;
                if b == 0 {
                    lemma_sorts_before_irreflexive(x);
                }
                assert(vt[b - 1] == x);
            }
        }
        lemma_listing_unique(vt, wt);
        assert(v =~= seq![v[0]] + vt);
        assert(w =~= seq![w[0]] + wt);
    }
}

/// An ordered listing of a set is the set's listing.
pub proof fn lemma_is_listing(v: Seq<Seq<u8>>, s: Set<Seq<u8>>)
    requires
        strictly_sorted(v),
        v.to_set() == s,
    ensures
        listing(s) == v,
{
    let w = listing(s);
    assert(strictly_sorted(w) && w.to_set() == s);
    lemma_listing_unique(v, w);
}

/// Pushing a string adds it to the set the listing holds.
pub proof fn lemma_push_to_set(s: Seq<Seq<u8>>, x: Seq<u8>)
    ensures
        s.push(x).to_set() == s.to_set().insert(x),
{
    let t = s.push(x);
    assert forall|y: Seq<u8>| t.to_set().contains(y) implies s.to_set().insert(x).contains(y) by {
        let k = choose|k: int| 0 <= k < t.len() && t[k] == y;
        if k < s.len() {
            assert(s[k] == y);
        }
    }
    assert forall|y: Seq<u8>| s.to_set().insert(x).contains(y) implies t.to_set().contains(y) by {
        if y == x {
            assert(t[s.len() as int] == y);
        } else {
            let k = choose|k: int| 0 <= k < s.len() && s[k] == y;
            assert(t[k] == y);
        }
    }
    assert(t.to_set() =~= s.to_set().insert(x));
}

/// Puts `x` into an ordered listing where it belongs, unless it is there.
pub fn insert_sorted(v: &mut Vec<Vec<u8>>, x: &Vec<u8>)
    requires
        strictly_sorted(views(old(v)@)),
    ensures
        strictly_sorted(views(final(v)@)),
        views(final(v)@).to_set() == views(old(v)@).to_set().insert(x@),
{
    let ghost before = views(v@);
    let mut p: usize = 0;
    while p < v.len() && sorts_before_bytes(&v[p], x)
        invariant
            p <= v@.len(),
            views(v@) == before,
            strictly_sorted(before),
            forall|i: int| 0 <= i < p ==> sorts_before(#[trigger] before[i], x@),
        decreases v@.len() - p,
    {
        p = p + 1;
    }
    if p < v.len() && !sorts_before_bytes(x, &v[p]) {
        proof {
            assert(before[p as int] == v@[p as int]@);
            if before[p as int] != x@ {
                lemma_sorts_before_total(before[p as int], x@);
            }
        }
        assert(before[p as int] == x@);
        assert(before.to_set().insert(x@) =~= before.to_set());
        return;
    }
    if p < v.len() {
        proof {
            assert(before[p as int] == v@[p as int]@);
            lemma_sorts_before_total(before[p as int], x@);
        }
    }
    let c = x.clone();
    v.insert(p, c);
    let ghost after = views(v@);
    assert(after =~= before.insert(p as int, x@));
    assert(strictly_sorted(after)) by {
        assert forall|i: int, j: int| 0 <= i < j < after.len() implies sorts_before(#[trigger] after[i], #[trigger] after[j]) by {
            if j < p {
                assert(after[i] == before[i] && after[j] == before[j]);
            } else if j == p {
                assert(after[i] == before[i]);
            } else if i == p {
                assert(after[j] == before[j - 1]);
                if j - 1 > p {
                    assert(sorts_before(before[p as int], before[j - 1]));
                    lemma_sorts_before_transitive(x@, before[p as int], before[j - 1]);
                }
            } else if i < p {
                assert(after[i] == before[i] && after[j] == before[j - 1]);
            } else {
                assert(after[i] == before[i - 1] && after[j] == before[j - 1]);
            }
        }
    }
    assert(after.to_set() =~= before.to_set().insert(x@)) by {
        assert forall|y: Seq<u8>| after.to_set().contains(y) implies before.to_set().insert(x@).contains(y) by {
            let k = choose|k: int| 0 <= k < after.len() && after[k] == y;
            if k < p {
                assert(before[k] == y);
            } else if k > p {
                assert(before[k - 1] == y);
            }
        }
        assert forall|y: Seq<u8>| before.to_set().insert(x@).contains(y) implies after.to_set().contains(y) by {
            if y == x@ {
                assert(after[p as int] == y);
            } else {
                let k = choose|k: int| 0 <= k < before.len() && before[k] == y;
                if k < p {
                    assert(after[k] == y);
                } else {
                    assert(after[k + 1] == y);
                }
            }
        }
    }
}


/// Whether `a` sorts strictly before `b`, character by character: the order
/// of their UTF-8 bytes.
pub open spec fn chars_before(a: Seq<char>, b: Seq<char>) -> bool
    decreases a.len(),
{
    if a.len() == 0 {
        b.len() > 0
    } else if b.len() == 0 {
        false
    } else if a[0] != b[0] {
        (a[0] as int) < (b[0] as int)
    } else {
        chars_before(a.skip(1), b.skip(1))
    }
}

/// No text sorts before itself.
pub proof fn lemma_chars_before_irreflexive(a: Seq<char>)
    ensures
        !chars_before(a, a),
    decreases a.len(),
{
    if a.len() > 0 {
        lemma_chars_before_irreflexive(a.skip(1));
    }
}

/// The text order is transitive.
pub proof fn lemma_chars_before_transitive(a: Seq<char>, b: Seq<char>, c: Seq<char>)
    requires
        chars_before(a, b),
        chars_before(b, c),
    ensures
        chars_before(a, c),
    decreases a.len(),
{
    if a.len() > 0 && b.len() > 0 && c.len() > 0 && a[0] == b[0] && b[0] == c[0] {
        lemma_chars_before_transitive(a.skip(1), b.skip(1), c.skip(1));
    }
}

/// Of two different texts one sorts before the other.
pub proof fn lemma_chars_before_total(a: Seq<char>, b: Seq<char>)
    requires
        a != b,
    ensures
        chars_before(a, b) || chars_before(b, a),
    decreases a.len(),
{
    if a.len() > 0 && b.len() > 0 && a[0] == b[0] {
        if a.skip(1) == b.skip(1) {
            assert(a =~= seq![a[0]] + a.skip(1));
            assert(b =~= seq![b[0]] + b.skip(1));
        }
        lemma_chars_before_total(a.skip(1), b.skip(1));
    } else if a.len() == 0 && b.len() == 0 {
        assert(a =~= b);
    } else if a.len() > 0 && b.len() > 0 {
        assert((a[0] as int) != (b[0] as int));
    }
}

/// Whether text `a` sorts strictly before text `b`.
pub fn chars_before_exec(a: &Vec<char>, b: &Vec<char>) -> (r: bool)
    ensures
        r == chars_before(a@, b@),
{
    let mut k: usize = 0;
    assert(a@.skip(0) =~= a@);
    assert(b@.skip(0) =~= b@);
    while k < a.len() && k < b.len() && a[k] == b[k]
        invariant
            k <= a@.len(),
            k <= b@.len(),
            chars_before(a@, b@) == chars_before(a@.skip(k as int), b@.skip(k as int)),
        decreases a@.len() - k,
    {
        assert(a@.skip(k as int).skip(1) =~= a@.skip(k + 1));
        assert(b@.skip(k as int).skip(1) =~= b@.skip(k + 1));
        k = k + 1;
    }
    if k == a.len() {
        k < b.len()
    } else if k == b.len() {
        false
    } else {
        a[k] < b[k]
    }
}

} // verus!
