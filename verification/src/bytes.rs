//! Byte strings: the windows, prefixes and suffixes the path and file readers
//! of this crate test, stated over `Seq<u8>`.

use vstd::prelude::*;

verus! {

/// The bytes an ASCII string is stored as: each character's code.
pub open spec fn ascii(s: Seq<char>) -> Seq<u8> {
    Seq::new(s.len(), |i: int| s[i] as u8)
}

/// Whether `s` begins with `p`.
pub open spec fn starts_with(s: Seq<u8>, p: Seq<u8>) -> bool {
    p.len() <= s.len() && s.take(p.len() as int) == p
}

/// Whether `s` ends with `p`.
pub open spec fn ends_with(s: Seq<u8>, p: Seq<u8>) -> bool {
    p.len() <= s.len() && s.skip(s.len() - p.len()) == p
}

/// Whether byte `c` occurs in `[lo, hi)` of `s`.
pub open spec fn has_byte(s: Seq<u8>, lo: int, hi: int, c: u8) -> bool {
    exists|k: int| lo <= k < hi && #[trigger] s[k] == c
}

/// Whether the window `[lo, hi)` of `t` holds exactly the ASCII bytes of `s`.
pub fn spells(t: &[u8], lo: usize, hi: usize, s: &str) -> (b: bool)
    requires
        lo <= hi <= t@.len(),
    ensures
        b == (t@.subrange(lo as int, hi as int) == ascii(s@)),
{
    let cs = crate::text::chars_of(s);
    if hi - lo != cs.len() {
        proof {
            assert(t@.subrange(lo as int, hi as int).len() != ascii(s@).len());
        }
        return false;
    }
    let mut k: usize = 0;
    while k < cs.len()
        invariant
            hi - lo == cs@.len(),
            lo <= hi <= t@.len(),
            cs@ == s@,
            k <= cs@.len(),
            forall|m: int| 0 <= m < k ==> t@[lo + m] == (cs@[m] as u8),
        decreases cs@.len() - k,
    {
        if t[lo + k] != (cs[k] as u8) {
            proof {
                assert(t@.subrange(lo as int, hi as int)[k as int] != ascii(s@)[k as int]);
            }
            return false;
        }
        k = k + 1;
    }
    assert(t@.subrange(lo as int, hi as int) =~= ascii(s@));
    true
}

/// Whether `t` begins with the ASCII bytes of `s`.
pub fn starts_with_text(t: &[u8], s: &str) -> (b: bool)
    ensures
        b == starts_with(t@, ascii(s@)),
{
    let n = crate::text::chars_of(s).len();
    if n > t.len() {
        return false;
    }
    let b = spells(t, 0, n, s);
    assert(t@.subrange(0, n as int) =~= t@.take(n as int));
    b
}

/// Whether `t` ends with the ASCII bytes of `s`.
pub fn ends_with_text(t: &[u8], s: &str) -> (b: bool)
    ensures
        b == ends_with(t@, ascii(s@)),
{
    let n = crate::text::chars_of(s).len();
    if n > t.len() {
        return false;
    }
    let b = spells(t, t.len() - n, t.len(), s);
    assert(t@.subrange(t@.len() - n, t@.len() as int) =~= t@.skip(t@.len() - n));
    b
}

/// The last index in `[lo, hi)` holding `c`.
pub open spec fn last_byte(s: Seq<u8>, lo: int, hi: int, c: u8) -> Option<int>
    decreases hi - lo,
{
    if hi <= lo {
        None
    } else if s[hi - 1] == c {
        Some(hi - 1)
    } else {
        last_byte(s, lo, hi - 1, c)
    }
}

/// What `last_byte` finds: a position holding `c` with none after it, or no
/// position at all.
pub proof fn lemma_last_byte(s: Seq<u8>, lo: int, hi: int, c: u8)
    requires
        0 <= lo <= hi <= s.len(),
    ensures
        match last_byte(s, lo, hi, c) {
            Some(k) => lo <= k < hi && s[k] == c && !has_byte(s, k + 1, hi, c),
            None => !has_byte(s, lo, hi, c),
        },
    decreases hi - lo,
{
    if hi > lo && s[hi - 1] != c {
        lemma_last_byte(s, lo, hi - 1, c);
    }
}

/// The last index of `c` in `[lo, hi)` of `t`.
pub fn rfind_byte(t: &[u8], lo: usize, hi: usize, c: u8) -> (r: Option<usize>)
    requires
        lo <= hi <= t@.len(),
    ensures
        r == (match last_byte(t@, lo as int, hi as int, c) {
            Some(k) => Some(k as usize),
            None => None,
        }),
{
    let mut j = hi;
    while j > lo
        invariant
            lo <= j <= hi <= t@.len(),
            last_byte(t@, lo as int, hi as int, c) == last_byte(t@, lo as int, j as int, c),
        decreases j - lo,
    {
        if t[j - 1] == c {
            return Some(j - 1);
        }
        j = j - 1;
    }
    None
}

/// The first index at or after `i` and before `hi` holding `c`, or `hi`.
pub open spec fn next_byte(s: Seq<u8>, i: int, hi: int, c: u8) -> int
    decreases hi - i,
{
    if i >= hi {
        hi
    } else if s[i] == c {
        i
    } else {
        next_byte(s, i + 1, hi, c)
    }
}

/// What `next_byte` finds: the first position holding `c`, or `hi`.
pub proof fn lemma_next_byte(s: Seq<u8>, i: int, hi: int, c: u8)
    requires
        0 <= i <= hi <= s.len(),
    ensures
        i <= next_byte(s, i, hi, c) <= hi,
        !has_byte(s, i, next_byte(s, i, hi, c), c),
        next_byte(s, i, hi, c) < hi ==> s[next_byte(s, i, hi, c)] == c,
    decreases hi - i,
{
    if i < hi && s[i] != c {
        lemma_next_byte(s, i + 1, hi, c);
    }
}

/// The first index at or after `i` and before `hi` holding `c`, or `hi`.
pub fn find_byte(t: &[u8], i: usize, hi: usize, c: u8) -> (j: usize)
    requires
        i <= hi <= t@.len(),
    ensures
        j == next_byte(t@, i as int, hi as int, c),
{
    let mut j = i;
    while j < hi
        invariant
            i <= j <= hi <= t@.len(),
            next_byte(t@, i as int, hi as int, c) == next_byte(t@, j as int, hi as int, c),
        decreases hi - j,
    {
        if t[j] == c {
            return j;
        }
        j = j + 1;
    }
    j
}

/// In valid UTF-8, the byte after an ASCII character that starts a
/// character starts one too.
pub proof fn lemma_boundary_after_ascii(bytes: Seq<u8>, i: int)
    requires
        vstd::utf8::valid_utf8(bytes),
        0 <= i < bytes.len(),
        vstd::utf8::is_char_boundary(bytes, i),
        bytes[i] <= 0x7f,
    ensures
        vstd::utf8::is_char_boundary(bytes, i + 1),
    decreases bytes.len(),
{
    let rest = vstd::utf8::pop_first_scalar(bytes);
    let l = vstd::utf8::length_of_first_scalar(bytes);
    if i == 0 {
        assert(l == 1);
        assert(vstd::utf8::is_char_boundary(rest, 0));
    } else {
        assert(vstd::utf8::is_char_boundary(rest, i - l));
        assert(i - l >= 0);
        assert(rest[i - l] == bytes[i]);
        lemma_boundary_after_ascii(rest, i - l);
    }
}

/// Whether two byte strings are equal.
pub fn same_bytes(a: &[u8], b: &[u8]) -> (r: bool)
    ensures
        r == (a@ == b@),
{
    if a.len() != b.len() {
        return false;
    }
    let mut k: usize = 0;
    while k < a.len()
        invariant
            k <= a@.len(),
            a@.len() == b@.len(),
            forall|m: int| 0 <= m < k ==> a@[m] == b@[m],
        decreases a@.len() - k,
    {
        if a[k] != b[k] {
            return false;
        }
        k = k + 1;
    }
    assert(a@ =~= b@);
    true
}


/// Whether `t` begins with `p`.
pub fn has_prefix(t: &[u8], p: &[u8]) -> (r: bool)
    ensures
        r == starts_with(t@, p@),
{
    if p.len() > t.len() {
        return false;
    }
    let mut k: usize = 0;
    while k < p.len()
        invariant
            p@.len() <= t@.len(),
            k <= p@.len(),
            forall|m: int| 0 <= m < k ==> t@[m] == p@[m],
        decreases p@.len() - k,
    {
        if t[k] != p[k] {
            assert(t@.take(p@.len() as int)[k as int] != p@[k as int]);
            return false;
        }
        k = k + 1;
    }
    assert(t@.take(p@.len() as int) =~= p@);
    true
}

/// Whether `t` ends with `p`.
pub fn has_suffix(t: &[u8], p: &[u8]) -> (r: bool)
    ensures
        r == ends_with(t@, p@),
{
    if p.len() > t.len() {
        return false;
    }
    let d = t.len() - p.len();
    let mut k: usize = 0;
    while k < p.len()
        invariant
            p@.len() <= t@.len(),
            t@.len() == t.len(),
            d == t@.len() - p@.len(),
            k <= p@.len(),
            forall|m: int| 0 <= m < k ==> t@[d + m] == p@[m],
        decreases p@.len() - k,
    {
        if t[d + k] != p[k] {
            assert(t@.skip(d as int)[k as int] != p@[k as int]);
            return false;
        }
        k = k + 1;
    }
    assert(t@.skip(d as int) =~= p@);
    true
}

} // verus!
