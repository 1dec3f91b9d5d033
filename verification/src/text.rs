//! Characters and their UTF-8 widths: the model every reader in this crate
//! states its byte spans in.

use vstd::prelude::*;
use vstd::string::StringSliceAdditionalSpecFns;
use vstd::utf8::*;

verus! {

broadcast use vstd::string::group_string_axioms;

/// Unicode's `White_Space` property, which is exactly what
/// `char::is_whitespace` tests.
pub open spec fn is_space(c: char) -> bool {
    let u = c as u32;
    ||| u == 0x20
    ||| 0x09 <= u <= 0x0d
    ||| u == 0x85
    ||| u == 0xa0
    ||| u == 0x1680
    ||| 0x2000 <= u <= 0x200a
    ||| u == 0x2028
    ||| u == 0x2029
    ||| u == 0x202f
    ||| u == 0x205f
    ||| u == 0x3000
}

/// Whether one character is whitespace.
pub fn space(c: char) -> (b: bool)
    ensures
        b == is_space(c),
{
    let u = c as u32;
    u == 0x20 || (0x09 <= u && u <= 0x0d) || u == 0x85 || u == 0xa0 || u == 0x1680 || (0x2000
        <= u && u <= 0x200a) || u == 0x2028 || u == 0x2029 || u == 0x202f || u == 0x205f || u
        == 0x3000
}

/// The number of bytes UTF-8 spends on one character.
pub open spec fn width(c: char) -> nat {
    let u = c as u32;
    if u < 0x80 {
        1
    } else if u < 0x800 {
        2
    } else if u < 0x10000 {
        3
    } else {
        4
    }
}

/// The number of bytes UTF-8 spends on a character sequence.
pub open spec fn byte_len(s: Seq<char>) -> nat
    decreases s.len(),
{
    if s.len() == 0 {
        0
    } else {
        width(s[0]) + byte_len(s.drop_first())
    }
}

/// The byte offset at which the character at index `i` starts.
pub open spec fn offset(s: Seq<char>, i: int) -> nat {
    byte_len(s.take(i))
}

pub proof fn lemma_byte_len_concat(a: Seq<char>, b: Seq<char>)
    ensures
        byte_len(a + b) == byte_len(a) + byte_len(b),
    decreases a.len(),
{
    if a.len() == 0 {
        assert(a + b =~= b);
    } else {
        assert((a + b).drop_first() =~= a.drop_first() + b);
        lemma_byte_len_concat(a.drop_first(), b);
    }
}

/// Moving one character forward moves the byte offset by that character's
/// width.
pub proof fn lemma_offset_step(s: Seq<char>, i: int)
    requires
        0 <= i < s.len(),
    ensures
        offset(s, i + 1) == offset(s, i) + width(s[i]),
{
    assert(s.take(i + 1) =~= s.take(i) + seq![s[i]]);
    lemma_byte_len_concat(s.take(i), seq![s[i]]);
    let one = seq![s[i]];
    assert(one.drop_first() =~= Seq::<char>::empty());
    assert(byte_len(one) == width(s[i]) + byte_len(one.drop_first()));
}

pub proof fn lemma_offset_monotone(s: Seq<char>, i: int, j: int)
    requires
        0 <= i <= j <= s.len(),
    ensures
        offset(s, i) <= offset(s, j),
    decreases j - i,
{
    if i < j {
        lemma_offset_monotone(s, i, j - 1);
        lemma_offset_step(s, j - 1);
    }
}

/// Every character takes at least one byte.
pub proof fn lemma_len_le_byte_len(s: Seq<char>)
    ensures
        s.len() <= byte_len(s),
    decreases s.len(),
{
    if s.len() > 0 {
        lemma_len_le_byte_len(s.drop_first());
    }
}

/// Byte offsets strictly grow with the character index.
pub proof fn lemma_offset_strict(s: Seq<char>, i: int, j: int)
    requires
        0 <= i < j <= s.len(),
    ensures
        offset(s, i) < offset(s, j),
    decreases j - i,
{
    lemma_offset_step(s, j - 1);
    if i < j - 1 {
        lemma_offset_strict(s, i, j - 1);
    }
}

/// The character index at which byte offset `b` falls, when `b` is a
/// character boundary.
pub open spec fn char_index(s: Seq<char>, b: int) -> Option<int> {
    if exists|i: int| 0 <= i <= s.len() && #[trigger] offset(s, i) == b {
        Some(choose|i: int| 0 <= i <= s.len() && #[trigger] offset(s, i) == b)
    } else {
        None
    }
}

/// Finds the character index at byte offset `b`.
pub fn char_index_of(t: &[char], b: usize) -> (r: Option<usize>)
    requires
        byte_len(t@) <= usize::MAX,
    ensures
        r matches Some(i) ==> char_index(t@, b as int) == Some(i as int) && i <= t@.len(),
        r is None ==> char_index(t@, b as int) is None,
{
    let n = t.len();
    let mut k: usize = 0;
    let mut off: usize = 0;
    assert(t@.take(0) =~= Seq::<char>::empty());
    while k < n && off < b
        invariant
            k <= n == t@.len(),
            off == offset(t@, k as int),
            byte_len(t@) <= usize::MAX,
            forall|i: int| 0 <= i < k ==> #[trigger] offset(t@, i) < b,
        decreases n - k,
    {
        proof {
            lemma_offset_step(t@, k as int);
            lemma_offset_monotone(t@, k + 1, n as int);
            assert(t@.take(n as int) =~= t@);
            assert forall|i: int| 0 <= i < k + 1 implies #[trigger] offset(t@, i) < b by {
                if i < k {
                } else {
                    assert(i == k);
                }
            }
        }
        off = off + char_width(t[k]);
        k = k + 1;
    }
    if off == b {
        proof {
            assert(offset(t@, k as int) == b);
            let c = choose|i: int| 0 <= i <= t@.len() && #[trigger] offset(t@, i) == b;
            if c < k {
                lemma_offset_strict(t@, c, k as int);
            } else if c > k {
                lemma_offset_strict(t@, k as int, c);
            }
        }
        Some(k)
    } else {
        proof {
            assert forall|i: int| 0 <= i <= t@.len() implies #[trigger] offset(t@, i) != b by {
                if i < k {
                } else if i > k {
                    lemma_offset_strict(t@, k as int, i);
                } else {
                }
            }
        }
        None
    }
}

/// The width model agrees with the UTF-8 encoding vstd defines.
pub proof fn lemma_byte_len_encoding(s: Seq<char>)
    ensures
        byte_len(s) == encode_utf8(s).len(),
    decreases s.len(),
{
    if s.len() > 0 {
        let u = s[0] as u32;
        char_is_scalar(s[0]);
        assert(encode_scalar(u).len() == width(s[0]));
        lemma_byte_len_encoding(s.drop_first());
    }
}

/// One character's width, computed.
pub fn char_width(c: char) -> (w: usize)
    ensures
        w == width(c),
{
    let u = c as u32;
    if u < 0x80 {
        1
    } else if u < 0x800 {
        2
    } else if u < 0x10000 {
        3
    } else {
        4
    }
}

/// The characters of a string, in order.
pub fn chars_of(t: &str) -> (v: Vec<char>)
    ensures
        v@ == t@,
        byte_len(t@) <= usize::MAX,
{
    let bytes = t.as_bytes();
    let n = bytes.len();
    proof {
        lemma_byte_len_encoding(t@);
    }
    let mut v: Vec<char> = Vec::new();
    for c in it: t.chars()
        invariant
            it.seq() == t@,
            v@ == it.seq().take(it.index() as int),
    {
        v.push(c);
    }
    v
}


/// The first index at or after `i`, and before `hi`, whose character is not
/// whitespace; `hi` when there is none.
pub open spec fn skip_space(t: Seq<char>, i: int, hi: int) -> int
    decreases hi - i,
{
    if i < hi && is_space(t[i]) {
        skip_space(t, i + 1, hi)
    } else {
        i
    }
}

/// The end of the window `[lo, j)` once its trailing whitespace is dropped.
pub open spec fn back_space(t: Seq<char>, lo: int, j: int) -> int
    decreases j - lo,
{
    if lo < j && is_space(t[j - 1]) {
        back_space(t, lo, j - 1)
    } else {
        j
    }
}

/// Whether every character of the window is whitespace.
pub open spec fn blank(t: Seq<char>, lo: int, hi: int) -> bool {
    skip_space(t, lo, hi) >= hi
}

/// The bytes the leading whitespace of a window occupies: a line's indent.
pub open spec fn indent(t: Seq<char>, lo: int, hi: int) -> nat {
    (offset(t, skip_space(t, lo, hi)) - offset(t, lo)) as nat
}

/// Whether the window `[i, hi)` starts with `p`.
pub open spec fn starts(t: Seq<char>, i: int, hi: int, p: Seq<char>) -> bool {
    i + p.len() <= hi && t.subrange(i, i + p.len()) == p
}

/// Whether the window `[lo, j)` ends with `p`.
pub open spec fn ends(t: Seq<char>, lo: int, j: int, p: Seq<char>) -> bool {
    lo + p.len() <= j && t.subrange(j - p.len(), j) == p
}

/// Whether the window `[lo, hi)` is exactly `p`.
pub open spec fn equals(t: Seq<char>, lo: int, hi: int, p: Seq<char>) -> bool {
    hi - lo == p.len() && t.subrange(lo, hi) == p
}

/// Whether `p` occurs anywhere inside the window `[lo, hi)`.
pub open spec fn occurs(t: Seq<char>, lo: int, hi: int, p: Seq<char>) -> bool {
    exists|k: int| lo <= k && #[trigger] starts(t, k, hi, p)
}

/// The first index in `[i, hi)` holding `c`, or `hi`.
pub open spec fn find(t: Seq<char>, i: int, hi: int, c: char) -> int
    decreases hi - i,
{
    if i < hi && t[i] != c {
        find(t, i + 1, hi, c)
    } else {
        i
    }
}

pub proof fn lemma_skip_space(t: Seq<char>, i: int, hi: int)
    requires
        0 <= i <= hi <= t.len(),
    ensures
        i <= skip_space(t, i, hi) <= hi,
        forall|k: int| i <= k < skip_space(t, i, hi) ==> is_space(t[k]),
        skip_space(t, i, hi) < hi ==> !is_space(t[skip_space(t, i, hi)]),
    decreases hi - i,
{
    if i < hi && is_space(t[i]) {
        lemma_skip_space(t, i + 1, hi);
    }
}

pub proof fn lemma_back_space(t: Seq<char>, lo: int, j: int)
    requires
        0 <= lo <= j <= t.len(),
    ensures
        lo <= back_space(t, lo, j) <= j,
        forall|k: int| back_space(t, lo, j) <= k < j ==> is_space(t[k]),
        back_space(t, lo, j) > lo ==> !is_space(t[back_space(t, lo, j) - 1]),
    decreases j - lo,
{
    if lo < j && is_space(t[j - 1]) {
        lemma_back_space(t, lo, j - 1);
    }
}

pub proof fn lemma_find(t: Seq<char>, i: int, hi: int, c: char)
    requires
        0 <= i <= hi <= t.len(),
    ensures
        i <= find(t, i, hi, c) <= hi,
        forall|k: int| i <= k < find(t, i, hi, c) ==> t[k] != c,
        find(t, i, hi, c) < hi ==> t[find(t, i, hi, c)] == c,
    decreases hi - i,
{
    if i < hi && t[i] != c {
        lemma_find(t, i + 1, hi, c);
    }
}

/// Skips the whitespace at the front of `[i, hi)`.
pub fn skip_spaces(t: &[char], i: usize, hi: usize) -> (j: usize)
    requires
        i <= hi <= t@.len(),
    ensures
        j == skip_space(t@, i as int, hi as int),
        i <= j <= hi,
{
    let mut j = i;
    while j < hi && space(t[j])
        invariant
            i <= j <= hi <= t@.len(),
            skip_space(t@, j as int, hi as int) == skip_space(t@, i as int, hi as int),
        decreases hi - j,
    {
        j = j + 1;
    }
    j
}

/// Drops the whitespace at the back of `[lo, j)`.
pub fn back_spaces(t: &[char], lo: usize, j: usize) -> (k: usize)
    requires
        lo <= j <= t@.len(),
    ensures
        k == back_space(t@, lo as int, j as int),
        lo <= k <= j,
{
    let mut k = j;
    while k > lo && space(t[k - 1])
        invariant
            lo <= k <= j <= t@.len(),
            back_space(t@, lo as int, k as int) == back_space(t@, lo as int, j as int),
        decreases k,
    {
        k = k - 1;
    }
    k
}

/// The first index of `c` in `[i, hi)`, or `hi`.
pub fn find_char(t: &[char], i: usize, hi: usize, c: char) -> (j: usize)
    requires
        i <= hi <= t@.len(),
    ensures
        j == find(t@, i as int, hi as int, c),
        i <= j <= hi,
{
    let mut j = i;
    while j < hi && t[j] != c
        invariant
            i <= j <= hi <= t@.len(),
            find(t@, j as int, hi as int, c) == find(t@, i as int, hi as int, c),
        decreases hi - j,
    {
        j = j + 1;
    }
    j
}

/// Whether `[i, hi)` starts with the characters `p`.
pub fn starts_at(t: &[char], i: usize, hi: usize, p: &[char]) -> (b: bool)
    requires
        i <= hi <= t@.len(),
    ensures
        b == starts(t@, i as int, hi as int, p@),
{
    if p.len() > hi - i {
        return false;
    }
    let mut k: usize = 0;
    while k < p.len()
        invariant
            i + p@.len() <= hi <= t@.len(),
            k <= p@.len(),
            forall|m: int| 0 <= m < k ==> t@[i + m] == p@[m],
        decreases p@.len() - k,
    {
        if t[i + k] != p[k] {
            assert(t@.subrange(i as int, i + p@.len())[k as int] != p@[k as int]);
            return false;
        }
        k = k + 1;
    }
    assert(t@.subrange(i as int, i + p@.len()) =~= p@);
    true
}

/// Whether `[lo, j)` ends with the characters `p`.
pub fn ends_at(t: &[char], lo: usize, j: usize, p: &[char]) -> (b: bool)
    requires
        lo <= j <= t@.len(),
    ensures
        b == ends(t@, lo as int, j as int, p@),
{
    if p.len() > j - lo {
        return false;
    }
    let r = starts_at(t, j - p.len(), j, p);
    r
}

/// Whether `[lo, hi)` is exactly the characters `p`.
pub fn equals_at(t: &[char], lo: usize, hi: usize, p: &[char]) -> (b: bool)
    requires
        lo <= hi <= t@.len(),
    ensures
        b == equals(t@, lo as int, hi as int, p@),
{
    if hi - lo != p.len() {
        return false;
    }
    starts_at(t, lo, hi, p)
}

/// Whether `p` occurs inside `[lo, hi)`.
pub fn occurs_in(t: &[char], lo: usize, hi: usize, p: &[char]) -> (b: bool)
    requires
        lo <= hi <= t@.len(),
    ensures
        b == occurs(t@, lo as int, hi as int, p@),
{
    let mut k = lo;
    while k < hi
        invariant
            lo <= k <= hi <= t@.len(),
            forall|m: int| lo <= m < k ==> !#[trigger] starts(t@, m, hi as int, p@),
        decreases hi - k,
    {
        if starts_at(t, k, hi, p) {
            return true;
        }
        k = k + 1;
    }
    if starts_at(t, hi, hi, p) {
        return true;
    }
    assert forall|m: int| lo <= m implies !#[trigger] starts(t@, m, hi as int, p@) by {
        if m > hi {
            assert(!starts(t@, m, hi as int, p@));
        }
    }
    false
}


/// The byte offset of `j`, from the byte offset of an earlier `i`.
pub fn advance(t: &[char], i: usize, j: usize, oi: usize) -> (oj: usize)
    requires
        i <= j <= t@.len(),
        oi == offset(t@, i as int),
        byte_len(t@) <= usize::MAX,
    ensures
        oj == offset(t@, j as int),
{
    let mut k = i;
    let mut ok = oi;
    while k < j
        invariant
            i <= k <= j <= t@.len(),
            ok == offset(t@, k as int),
            byte_len(t@) <= usize::MAX,
        decreases j - k,
    {
        proof {
            lemma_offset_step(t@, k as int);
            lemma_offset_monotone(t@, k + 1, t@.len() as int);
            assert(t@.take(t@.len() as int) =~= t@);
        }
        ok = ok + char_width(t[k]);
        k = k + 1;
    }
    ok
}


/// `String::push` appends one character, as std documents.
pub assume_specification[ String::push ](s: &mut String, ch: char)
    ensures
        final(s)@ == old(s)@.push(ch),
;

/// Whether any character of `[lo, hi)` is whitespace.
pub open spec fn has_space(t: Seq<char>, lo: int, hi: int) -> bool {
    exists|k: int| lo <= k < hi && #[trigger] is_space(t[k])
}

/// Whether `c` occurs in `[lo, hi)`.
pub open spec fn has_char(t: Seq<char>, lo: int, hi: int, c: char) -> bool {
    exists|k: int| lo <= k < hi && #[trigger] t[k] == c
}

/// The last index of `c` in `[lo, j)`.
pub open spec fn rfind(t: Seq<char>, lo: int, j: int, c: char) -> Option<int>
    decreases j - lo,
{
    if lo < j {
        if t[j - 1] == c {
            Some(j - 1)
        } else {
            rfind(t, lo, j - 1, c)
        }
    } else {
        None
    }
}

pub proof fn lemma_rfind(t: Seq<char>, lo: int, j: int, c: char)
    requires
        0 <= lo <= j <= t.len(),
    ensures
        rfind(t, lo, j, c) matches Some(p) ==> lo <= p < j && t[p] == c && forall|k: int|
            p < k < j ==> t[k] != c,
        rfind(t, lo, j, c) is None ==> forall|k: int| lo <= k < j ==> t[k] != c,
    decreases j - lo,
{
    if lo < j && t[j - 1] != c {
        lemma_rfind(t, lo, j - 1, c);
    }
}

/// Whether `[lo, hi)` holds whitespace.
pub fn any_space(t: &[char], lo: usize, hi: usize) -> (b: bool)
    requires
        lo <= hi <= t@.len(),
    ensures
        b == has_space(t@, lo as int, hi as int),
{
    let mut k = lo;
    while k < hi
        invariant
            lo <= k <= hi <= t@.len(),
            forall|m: int| lo <= m < k ==> !is_space(t@[m]),
        decreases hi - k,
    {
        if space(t[k]) {
            return true;
        }
        k = k + 1;
    }
    false
}

/// Whether `c` occurs in `[lo, hi)`.
pub fn any_char(t: &[char], lo: usize, hi: usize, c: char) -> (b: bool)
    requires
        lo <= hi <= t@.len(),
    ensures
        b == has_char(t@, lo as int, hi as int, c),
{
    let mut k = lo;
    while k < hi
        invariant
            lo <= k <= hi <= t@.len(),
            forall|m: int| lo <= m < k ==> t@[m] != c,
        decreases hi - k,
    {
        if t[k] == c {
            return true;
        }
        k = k + 1;
    }
    false
}

/// The last index of `c` in `[lo, j)`.
pub fn rfind_char(t: &[char], lo: usize, j: usize, c: char) -> (r: Option<usize>)
    requires
        lo <= j <= t@.len(),
    ensures
        r matches Some(p) ==> rfind(t@, lo as int, j as int, c) == Some(p as int),
        r is None ==> rfind(t@, lo as int, j as int, c) is None,
{
    let mut k = j;
    while k > lo
        invariant
            lo <= k <= j <= t@.len(),
            rfind(t@, lo as int, k as int, c) == rfind(t@, lo as int, j as int, c),
        decreases k,
    {
        if t[k - 1] == c {
            return Some(k - 1);
        }
        k = k - 1;
    }
    None
}

/// The text of `a` followed by the text of `b`.
pub fn concat(a: &str, b: &str) -> (s: String)
    ensures
        s@ == a@ + b@,
{
    let mut s = a.to_owned();
    let tail = chars_of(b);
    for k in 0..tail.len()
        invariant
            tail@ == b@,
            s@ == a@ + b@.take(k as int),
    {
        s.push(tail[k]);
        assert(b@.take(k + 1) =~= b@.take(k as int).push(b@[k as int]));
        assert(a@ + b@.take(k + 1) =~= (a@ + b@.take(k as int)).push(b@[k as int]));
    }
    assert(b@.take(b@.len() as int) =~= b@);
    s
}

/// The characters of `[lo, hi)` as a string.
pub fn text_of(t: &[char], lo: usize, hi: usize) -> (s: String)
    requires
        lo <= hi <= t@.len(),
    ensures
        s@ == t@.subrange(lo as int, hi as int),
{
    let mut s = String::new();
    let mut k = lo;
    while k < hi
        invariant
            lo <= k <= hi <= t@.len(),
            s@ == t@.subrange(lo as int, k as int),
        decreases hi - k,
    {
        s.push(t[k]);
        assert(t@.subrange(lo as int, k + 1) =~= t@.subrange(lo as int, k as int).push(t@[k as int]));
        k = k + 1;
    }
    s
}


/// The characters of `[lo, hi)` as their own vector.
pub fn copy_range(t: &[char], lo: usize, hi: usize) -> (v: Vec<char>)
    requires
        lo <= hi <= t@.len(),
    ensures
        v@ == t@.subrange(lo as int, hi as int),
{
    let mut v: Vec<char> = Vec::new();
    let mut k = lo;
    while k < hi
        invariant
            lo <= k <= hi <= t@.len(),
            v@ == t@.subrange(lo as int, k as int),
        decreases hi - k,
    {
        v.push(t[k]);
        assert(t@.subrange(lo as int, k + 1) =~= t@.subrange(lo as int, k as int).push(t@[k as int]));
        k = k + 1;
    }
    v
}


/// Calls `std::str::from_utf8`, which std documents as accepting exactly the
/// byte strings that are valid UTF-8 and reading them as that text.
#[verifier::external_body]
pub(crate) fn utf8_text(bytes: &[u8]) -> (r: Option<&str>)
    ensures
        r is Some <==> valid_utf8(bytes@),
        r matches Some(s) ==> s@ == decode_utf8(bytes@),
{
    match std::str::from_utf8(bytes) {
        Ok(s) => Some(s),
        Err(_) => None,
    }
}

/// Whether two texts are the same.
pub fn same_text(a: &str, b: &str) -> (r: bool)
    ensures
        r == (a@ == b@),
{
    let x = chars_of(a);
    let y = chars_of(b);
    if x.len() != y.len() {
        return false;
    }
    for k in 0..x.len()
        invariant
            x@ == a@,
            y@ == b@,
            x@.len() == y@.len(),
            forall|m: int| 0 <= m < k ==> x@[m] == y@[m],
    {
        if x[k] != y[k] {
            return false;
        }
    }
    assert(x@ =~= y@);
    true
}

} // verus!
