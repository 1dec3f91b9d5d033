//! Bytes-only recognition of a Git LFS pointer file: no attributes,
//! configuration or filters are consulted.

use crate::order::{sorts_before, sorts_before_bytes};
use crate::bytes::{ascii, has_byte, lemma_next_byte, next_byte, find_byte, spells, starts_with};
use vstd::prelude::*;
use vstd::utf8::valid_utf8;

verus! {

/// The carriage return byte.
pub open spec fn cr() -> u8 {
    0x0d
}

/// The line feed byte.
pub open spec fn lf() -> u8 {
    0x0a
}

/// Whether a carriage return directly precedes a line feed somewhere.
pub open spec fn has_crlf(b: Seq<u8>) -> bool {
    exists|i: int| 0 <= i && i + 1 < b.len() && #[trigger] b[i] == cr() && b[i + 1] == lf()
}

/// One consistent ending: where some line ends in CRLF, every carriage return
/// is followed by a line feed and every line feed follows a carriage return;
/// otherwise there is no carriage return at all.
pub open spec fn endings_consistent(b: Seq<u8>) -> bool {
    if has_crlf(b) {
        &&& forall|i: int| 0 <= i < b.len() && #[trigger] b[i] == cr() ==> i + 1 < b.len() && b[i + 1] == lf()
        &&& forall|i: int| 0 <= i < b.len() && #[trigger] b[i] == lf() ==> i > 0 && b[i - 1] == cr()
    } else {
        !has_byte(b, 0, b.len() as int, cr())
    }
}

/// The bytes without their carriage returns. Under one consistent ending
/// this is the file with every line ended by a bare line feed.
pub open spec fn without_cr(b: Seq<u8>) -> Seq<u8>
    decreases b.len(),
{
    if b.len() == 0 {
        b
    } else if b.last() == cr() {
        without_cr(b.drop_last())
    } else {
        without_cr(b.drop_last()).push(b.last())
    }
}

/// The lines of `s[i..]`, split at each line feed.
pub open spec fn lines_from(s: Seq<u8>, i: int) -> Seq<Seq<u8>>
    decreases s.len() - i,
{
    if i < 0 || i > s.len() {
        seq![]
    } else {
        let j = next_byte(s, i, s.len() as int, lf());
        if j >= s.len() {
            seq![s.subrange(i, s.len() as int)]
        } else {
            proof {
                lemma_next_byte(s, i, s.len() as int, lf());
            }
            seq![s.subrange(i, j)] + lines_from(s, j + 1)
        }
    }
}

/// Where the first space of a line is, or its length.
pub open spec fn space_at(line: Seq<u8>) -> int {
    next_byte(line, 0, line.len() as int, 0x20)
}

/// A line's key: what precedes its first space.
pub open spec fn key_of(line: Seq<u8>) -> Seq<u8> {
    line.take(space_at(line))
}

/// A line's value: what follows its first space.
pub open spec fn value_of(line: Seq<u8>) -> Seq<u8> {
    line.skip(space_at(line) + 1)
}

/// A byte a key may hold: a lowercase ASCII letter, a digit, `.` or `-`.
pub open spec fn key_byte(c: u8) -> bool {
    (0x61 <= c <= 0x7a) || (0x30 <= c <= 0x39) || c == 0x2e || c == 0x2d
}

/// An ASCII digit.
pub open spec fn digit_byte(c: u8) -> bool {
    0x30 <= c <= 0x39
}

/// A lowercase hexadecimal digit.
pub open spec fn hex_byte(c: u8) -> bool {
    digit_byte(c) || (0x61 <= c <= 0x66)
}

/// The number the digits of `v` spell.
pub open spec fn digits_value(v: Seq<u8>) -> nat
    decreases v.len(),
{
    if v.len() == 0 {
        0
    } else {
        digits_value(v.drop_last()) * 10 + (v.last() - 0x30) as nat
    }
}

/// The largest size a pointer may declare.
pub open spec fn max_size() -> nat {
    9_223_372_036_854_775_807
}

/// An `oid` value: `sha256:` and sixty-four lowercase hexadecimal digits.
pub open spec fn oid_value(v: Seq<u8>) -> bool {
    &&& starts_with(v, ascii("sha256:"@))
    &&& v.len() == 71
    &&& forall|k: int| 7 <= k < 71 ==> hex_byte(#[trigger] v[k])
}

/// A `size` value: digits without a leading zero unless it is `0`, spelling
/// a number no larger than the largest size.
pub open spec fn size_value(v: Seq<u8>) -> bool {
    &&& v.len() > 0
    &&& (forall|k: int| 0 <= k < v.len() ==> digit_byte(#[trigger] v[k]))
    &&& (v.len() == 1 || v[0] != 0x30)
    &&& digits_value(v) <= max_size()
}

/// One key/value line after the version line.
pub open spec fn entry_ok(line: Seq<u8>) -> bool {
    let key = key_of(line);
    let value = value_of(line);
    &&& space_at(line) < line.len()
    &&& !(value.len() > 0 && value[0] == 0x20)
    &&& key.len() > 0
    &&& (forall|k: int| 0 <= k < key.len() ==> key_byte(#[trigger] key[k]))
    &&& key != ascii("version"@)
    &&& (key == ascii("oid"@) ==> oid_value(value))
    &&& (key == ascii("size"@) ==> size_value(value))
}

/// The version lines a pointer may open with.
pub open spec fn version_line(line: Seq<u8>) -> bool {
    line == ascii("version https://git-lfs.github.com/spec/v1"@) || line == ascii(
        "version https://hawser.github.com/spec/v1"@,
    )
}

/// The lines after the version line: each a well-formed entry, the keys
/// strictly increasing, with exactly one `oid` and one `size` line (the order
/// allows no key twice).
pub open spec fn entries_ok(lines: Seq<Seq<u8>>) -> bool {
    &&& forall|k: int| 0 <= k < lines.len() ==> entry_ok(#[trigger] lines[k])
    &&& forall|k: int|
        0 < k < lines.len() ==> sorts_before(key_of(lines[k - 1]), key_of(#[trigger] lines[k]))
    &&& exists|k: int| 0 <= k < lines.len() && key_of(#[trigger] lines[k]) == ascii("oid"@)
    &&& exists|k: int| 0 <= k < lines.len() && key_of(#[trigger] lines[k]) == ascii("size"@)
}

/// A recognized pointer: 1 to 1,023 bytes, BOM-free UTF-8, key/value lines
/// under one consistent ending, every line ended, the version line first,
/// then the entries. An ordinary file matching the grammar is deliberately a
/// pointer.
pub open spec fn is_pointer_spec(b: Seq<u8>) -> bool {
    let t = without_cr(b);
    &&& 1 <= b.len() <= 1023
    &&& !starts_with(b, seq![0xefu8, 0xbbu8, 0xbfu8])
    &&& valid_utf8(b)
    &&& endings_consistent(b)
    &&& t.len() > 0
    &&& t.last() == lf()
    &&& version_line(lines_from(t.drop_last(), 0)[0])
    &&& entries_ok(lines_from(t.drop_last(), 0).skip(1))
}

proof fn lemma_without_cr_last(b: Seq<u8>)
    requires
        b.len() > 0,
        b.last() != cr(),
    ensures
        without_cr(b).len() > 0,
        without_cr(b).last() == b.last(),
{
}

/// A recognized pointer is 1 to 1,023 bytes and ends with a line feed: a
/// missing final ending is ordinary content.
pub proof fn lemma_pointer_is_ended(b: Seq<u8>)
    requires
        is_pointer_spec(b),
    ensures
        1 <= b.len() <= 1023,
        b.last() == lf(),
{
    if b.last() == cr() {
        if has_crlf(b) {
            assert(b[b.len() - 1] == cr());
        } else {
            assert(b[b.len() - 1] == cr());
            assert(has_byte(b, 0, b.len() as int, cr()));
        }
    }
    lemma_without_cr_last(b);
}

/// Every line feed preceded by a carriage return: the all-CRLF transform.
pub open spec fn crlf(b: Seq<u8>) -> Seq<u8>
    decreases b.len(),
{
    match crate::bytes::last_byte(b, 0, b.len() as int, lf()) {
        None => b,
        Some(k) => {
            proof {
                crate::bytes::lemma_last_byte(b, 0, b.len() as int, lf());
            }
            crlf(b.take(k)) + seq![cr(), lf()] + b.skip(k + 1)
        },
    }
}

/// Every carriage return is followed by a line feed and every line feed
/// follows a carriage return.
pub open spec fn paired_endings(s: Seq<u8>) -> bool {
    &&& forall|i: int| 0 <= i < s.len() && #[trigger] s[i] == cr() ==> i + 1 < s.len() && s[i + 1] == lf()
    &&& forall|i: int| 0 <= i < s.len() && #[trigger] s[i] == lf() ==> i > 0 && s[i - 1] == cr()
}

proof fn lemma_without_cr_concat(p: Seq<u8>, q: Seq<u8>)
    ensures
        without_cr(p + q) == without_cr(p) + without_cr(q),
    decreases q.len(),
{
    if q.len() == 0 {
        assert(p + q =~= p);
        assert(without_cr(p) + without_cr(q) =~= without_cr(p));
    } else {
        assert((p + q).drop_last() =~= p + q.drop_last());
        assert((p + q).last() == q.last());
        lemma_without_cr_concat(p, q.drop_last());
        if q.last() != cr() {
            assert(without_cr(p) + without_cr(q) =~= (without_cr(p) + without_cr(q.drop_last())).push(q.last()));
        }
    }
}

proof fn lemma_without_cr_plain(q: Seq<u8>)
    requires
        !has_byte(q, 0, q.len() as int, cr()),
    ensures
        without_cr(q) == q,
    decreases q.len(),
{
    if q.len() > 0 {
        assert(q.last() == q[q.len() - 1]);
        assert(!has_byte(q.drop_last(), 0, q.drop_last().len() as int, cr())) by {
            if has_byte(q.drop_last(), 0, q.drop_last().len() as int, cr()) {
                let k = choose|k: int| 0 <= k < q.drop_last().len() && q.drop_last()[k] == cr();
                assert(q[k] == cr());
            }
        }
        lemma_without_cr_plain(q.drop_last());
        assert(q.drop_last().push(q.last()) =~= q);
    }
}

/// Appending a paired ending and a tail free of endings keeps the endings
/// paired.
proof fn lemma_crlf_pairs(cx: Seq<u8>, y: Seq<u8>)
    requires
        paired_endings(cx),
        !has_byte(y, 0, y.len() as int, cr()),
        !has_byte(y, 0, y.len() as int, lf()),
    ensures
        paired_endings(cx + seq![cr(), lf()] + y),
        (cx + seq![cr(), lf()] + y)[cx.len() as int] == cr(),
        (cx + seq![cr(), lf()] + y)[cx.len() as int + 1] == lf(),
{
    let mid = seq![cr(), lf()];
    let out = cx + mid + y;
    assert forall|i: int| 0 <= i < out.len() && #[trigger] out[i] == cr() implies i + 1 < out.len() && out[i + 1] == lf() by {
        if i < cx.len() {
            assert(out[i] == cx[i]);
            if i + 1 < cx.len() {
                assert(out[i + 1] == cx[i + 1]);
            }
        } else if i >= cx.len() + 2 {
            assert(out[i] == y[i - cx.len() - 2]);
            assert(has_byte(y, 0, y.len() as int, cr()));
        }
    }
    assert forall|i: int| 0 <= i < out.len() && #[trigger] out[i] == lf() implies i > 0 && out[i - 1] == cr() by {
        if i < cx.len() {
            assert(out[i] == cx[i]);
            assert(out[i - 1] == cx[i - 1]);
        } else if i >= cx.len() + 2 {
            assert(out[i] == y[i - cx.len() - 2]);
            assert(has_byte(y, 0, y.len() as int, lf()));
        }
    }
}

/// The pieces the transform is made of, and what each of them holds.
proof fn lemma_crlf(b: Seq<u8>)
    requires
        !has_byte(b, 0, b.len() as int, cr()),
    ensures
        without_cr(crlf(b)) == b,
        paired_endings(crlf(b)),
        crlf(b).len() >= b.len(),
        has_byte(b, 0, b.len() as int, lf()) ==> has_crlf(crlf(b)),
        !has_byte(b, 0, b.len() as int, lf()) ==> crlf(b) == b,
        vstd::utf8::valid_utf8(b) ==> vstd::utf8::valid_utf8(crlf(b)),
    decreases b.len(),
{
    crate::bytes::lemma_last_byte(b, 0, b.len() as int, lf());
    match crate::bytes::last_byte(b, 0, b.len() as int, lf()) {
        None => {
            lemma_without_cr_plain(b);
            assert(paired_endings(b)) by {
                assert forall|i: int| 0 <= i < b.len() && #[trigger] b[i] == cr() implies i + 1 < b.len() && b[i + 1] == lf() by {
                    assert(has_byte(b, 0, b.len() as int, cr()));
                }
                assert forall|i: int| 0 <= i < b.len() && #[trigger] b[i] == lf() implies i > 0 && b[i - 1] == cr() by {
                    assert(has_byte(b, 0, b.len() as int, lf()));
                }
            }
        },
        Some(k) => {
            let x = b.take(k);
            let y = b.skip(k + 1);
            assert(!has_byte(x, 0, x.len() as int, cr())) by {
                if has_byte(x, 0, x.len() as int, cr()) {
                    let w = choose|w: int| 0 <= w < x.len() && x[w] == cr();
                    assert(b[w] == cr());
                }
            }
            assert(!has_byte(y, 0, y.len() as int, cr())) by {
                if has_byte(y, 0, y.len() as int, cr()) {
                    let w = choose|w: int| 0 <= w < y.len() && y[w] == cr();
                    assert(b[k + 1 + w] == cr());
                }
            }
            assert(!has_byte(y, 0, y.len() as int, lf())) by {
                if has_byte(y, 0, y.len() as int, lf()) {
                    let w = choose|w: int| 0 <= w < y.len() && y[w] == lf();
                    assert(b[k + 1 + w] == lf());
                    assert(has_byte(b, k + 1, b.len() as int, lf()));
                }
            }
            lemma_crlf(x);
            let cx = crlf(x);
            let mid = seq![cr(), lf()];
            let out = cx + mid + y;
            assert(crlf(b) == out);
            // the bytes without their carriage returns
            lemma_without_cr_concat(cx + mid, y);
            lemma_without_cr_concat(cx, mid);
            lemma_without_cr_plain(y);
            assert(without_cr(mid) =~= seq![lf()]) by {
                reveal_with_fuel(without_cr, 3);
                assert(mid.drop_last() =~= seq![cr()]);
                assert(seq![cr()].drop_last() =~= Seq::<u8>::empty());
            }
            assert(x + seq![lf()] + y =~= b);
            lemma_crlf_pairs(cx, y);
            // validity survives
            if vstd::utf8::valid_utf8(b) {
                vstd::utf8::is_char_boundary_start_end_of_seq(b);
                vstd::utf8::is_char_boundary_iff_not_is_continuation_byte(b, k);
                vstd::utf8::valid_utf8_split(b, k);
                crate::bytes::lemma_boundary_after_ascii(b, k);
                vstd::utf8::valid_utf8_split(b, k + 1);
                assert(b.subrange(0, k) =~= x);
                assert(b.subrange(k + 1, b.len() as int) =~= y);
                assert(vstd::utf8::valid_utf8(mid)) by {
                    reveal_with_fuel(vstd::utf8::valid_utf8, 3);
                }
                vstd::utf8::valid_utf8_concat(cx, mid);
                vstd::utf8::valid_utf8_concat(cx + mid, y);
            }
        },
    }
}

/// A pointer written with bare line feeds is a pointer under the exact
/// all-CRLF transform too, as long as the transform still fits the size
/// ceiling: the two endings are one grammar.
pub proof fn lemma_crlf_pointer(b: Seq<u8>)
    requires
        is_pointer_spec(b),
        !has_byte(b, 0, b.len() as int, cr()),
        crlf(b).len() <= 1023,
    ensures
        is_pointer_spec(crlf(b)),
{
    lemma_crlf(b);
    lemma_without_cr_plain(b);
    lemma_pointer_is_ended(b);
    let c = crlf(b);
    assert(has_byte(b, 0, b.len() as int, lf())) by {
        assert(b[b.len() - 1] == lf());
    }
    assert(endings_consistent(c));
    assert(!starts_with(c, seq![0xefu8, 0xbbu8, 0xbfu8])) by {
        if starts_with(c, seq![0xefu8, 0xbbu8, 0xbfu8]) {
            let head = c.take(3);
            assert(!has_byte(head, 0, 3, cr())) by {
                if has_byte(head, 0, 3, cr()) {
                    let w = choose|w: int| 0 <= w < 3 && head[w] == cr();
                    assert(head[w] == seq![0xefu8, 0xbbu8, 0xbfu8][w]);
                }
            }
            lemma_without_cr_plain(head);
            assert(head + c.skip(3) =~= c);
            lemma_without_cr_concat(head, c.skip(3));
            assert(b.take(3) =~= head);
            assert(b[0] == 0xefu8 && b[1] == 0xbbu8 && b[2] == 0xbfu8);
        }
    }
}

proof fn lemma_crlf_len(b: Seq<u8>)
    ensures
        crlf(b).len() >= b.len(),
        b.len() == 0 ==> crlf(b) == b,
    decreases b.len(),
{
    crate::bytes::lemma_last_byte(b, 0, b.len() as int, lf());
    match crate::bytes::last_byte(b, 0, b.len() as int, lf()) {
        None => {},
        Some(k) => {
            lemma_crlf_len(b.take(k));
        },
    }
}

/// Bytes before the first line feed are left as they are by the transform.
proof fn lemma_crlf_prefix(b: Seq<u8>, j: int)
    requires
        0 <= j <= b.len(),
        !has_byte(b, 0, j, lf()),
    ensures
        crlf(b).len() >= j,
        crlf(b).take(j) == b.take(j),
    decreases b.len(),
{
    lemma_crlf_len(b);
    crate::bytes::lemma_last_byte(b, 0, b.len() as int, lf());
    match crate::bytes::last_byte(b, 0, b.len() as int, lf()) {
        None => {},
        Some(k) => {
            if k < j {
                assert(has_byte(b, 0, j, lf())) by {
                    assert(b[k] == lf());
                }
            }
            let x = b.take(k);
            assert(!has_byte(x, 0, j, lf())) by {
                if has_byte(x, 0, j, lf()) {
                    let w = choose|w: int| 0 <= w < j && x[w] == lf();
                    assert(b[w] == lf());
                }
            }
            lemma_crlf_prefix(x, j);
            let out = crlf(x) + seq![cr(), lf()] + b.skip(k + 1);
            assert(crlf(b) == out);
            assert(out.take(j) =~= crlf(x).take(j));
            assert(x.take(j) =~= b.take(j));
        },
    }
}

/// Where the transform is valid UTF-8, so are the bytes it was made from:
/// each line feed it turned into a carriage return and a line feed stands on
/// a character boundary.
proof fn lemma_crlf_utf8_back(b: Seq<u8>)
    requires
        !has_byte(b, 0, b.len() as int, cr()),
        vstd::utf8::valid_utf8(crlf(b)),
    ensures
        vstd::utf8::valid_utf8(b),
    decreases b.len(),
{
    crate::bytes::lemma_last_byte(b, 0, b.len() as int, lf());
    match crate::bytes::last_byte(b, 0, b.len() as int, lf()) {
        None => {},
        Some(k) => {
            let x = b.take(k);
            let y = b.skip(k + 1);
            assert(!has_byte(x, 0, x.len() as int, cr())) by {
                if has_byte(x, 0, x.len() as int, cr()) {
                    let w = choose|w: int| 0 <= w < x.len() && x[w] == cr();
                    assert(b[w] == cr());
                }
            }
            let cx = crlf(x);
            let mid = seq![cr(), lf()];
            let c = cx + mid + y;
            assert(crlf(b) == c);
            let i = cx.len() as int;
            assert(c[i] == cr());
            vstd::utf8::is_char_boundary_iff_not_is_continuation_byte(c, i);
            vstd::utf8::valid_utf8_split(c, i);
            assert(c.subrange(0, i) =~= cx);
            lemma_crlf_utf8_back(x);
            crate::bytes::lemma_boundary_after_ascii(c, i);
            assert(c[i + 1] == lf());
            crate::bytes::lemma_boundary_after_ascii(c, i + 1);
            vstd::utf8::valid_utf8_split(c, i + 2);
            assert(c.subrange(i + 2, c.len() as int) =~= y);
            assert(vstd::utf8::valid_utf8(seq![lf()])) by {
                reveal_with_fuel(vstd::utf8::valid_utf8, 2);
            }
            vstd::utf8::valid_utf8_concat(x, seq![lf()]);
            vstd::utf8::valid_utf8_concat(x + seq![lf()], y);
            assert(x + seq![lf()] + y =~= b);
        },
    }
}

/// A body whose all-CRLF transform is a pointer is a pointer itself, written
/// with bare line feeds.
pub proof fn lemma_crlf_pointer_back(b: Seq<u8>)
    requires
        is_pointer_spec(crlf(b)),
        !has_byte(b, 0, b.len() as int, cr()),
    ensures
        is_pointer_spec(b),
{
    lemma_crlf(b);
    lemma_crlf_len(b);
    lemma_without_cr_plain(b);
    lemma_crlf_utf8_back(b);
    let c = crlf(b);
    assert(!has_crlf(b)) by {
        if has_crlf(b) {
            let i = choose|i: int| 0 <= i && i + 1 < b.len() && #[trigger] b[i] == cr() && b[i + 1] == lf();
            assert(has_byte(b, 0, b.len() as int, cr()));
        }
    }
    assert(!starts_with(b, seq![0xefu8, 0xbbu8, 0xbfu8])) by {
        if starts_with(b, seq![0xefu8, 0xbbu8, 0xbfu8]) {
            assert(b.len() >= 3);
            assert(!has_byte(b, 0, 3, lf())) by {
                if has_byte(b, 0, 3, lf()) {
                    let w = choose|w: int| 0 <= w < 3 && b[w] == lf();
                    assert(b[w] == seq![0xefu8, 0xbbu8, 0xbfu8][w]);
                }
            }
            lemma_crlf_prefix(b, 3);
            assert(c[0] == c.take(3)[0] && c[1] == c.take(3)[1] && c[2] == c.take(3)[2]);
            assert(b[0] == b.take(3)[0] && b[1] == b.take(3)[1] && b[2] == b.take(3)[2]);
            assert(starts_with(c, seq![0xefu8, 0xbbu8, 0xbfu8]));
        }
    }
}

/// A body with no carriage returns is a pointer exactly when its all-CRLF
/// transform is, as long as the transform fits the size ceiling: the two
/// endings are judged alike.
pub proof fn lemma_crlf_pointer_iff(b: Seq<u8>)
    requires
        !has_byte(b, 0, b.len() as int, cr()),
        crlf(b).len() <= 1023,
    ensures
        is_pointer_spec(b) == is_pointer_spec(crlf(b)),
{
    if is_pointer_spec(b) {
        lemma_crlf_pointer(b);
    }
    if is_pointer_spec(crlf(b)) {
        lemma_crlf_pointer_back(b);
    }
}

/// The bytes of `[lo, hi)` as their own vector.
fn copy_bytes(t: &[u8], lo: usize, hi: usize) -> (v: Vec<u8>)
    requires
        lo <= hi <= t@.len(),
    ensures
        v@ == t@.subrange(lo as int, hi as int),
{
    let mut v: Vec<u8> = Vec::new();
    let mut k = lo;
    while k < hi
        invariant
            lo <= k <= hi <= t@.len(),
            v@ == t@.subrange(lo as int, k as int),
        decreases hi - k,
    {
        v.push(t[k]);
        assert(t@.subrange(lo as int, k + 1) =~= t@.subrange(lo as int, k as int).push(t@[k as int]));
        k = k + 1;
    }
    v
}

/// Whether a carriage return directly precedes a line feed somewhere.
fn crlf_in(b: &[u8]) -> (r: bool)
    ensures
        r == has_crlf(b@),
{
    let mut i: usize = 0;
    while b.len() > 0 && i < b.len() - 1
        invariant
            forall|k: int| 0 <= k < i && k + 1 < b@.len() ==> !(#[trigger] b@[k] == cr() && b@[k + 1] == lf()),
        decreases b@.len() - i,
    {
        if b[i] == 0x0d && b[i + 1] == 0x0a {
            return true;
        }
        i = i + 1;
    }
    false
}

/// Whether the endings are consistent, given whether some line ends in CRLF.
fn endings_ok(b: &[u8], crlf: bool) -> (r: bool)
    requires
        crlf == has_crlf(b@),
    ensures
        r == endings_consistent(b@),
{
    let mut i: usize = 0;
    while i < b.len()
        invariant
            i <= b@.len(),
            crlf == has_crlf(b@),
            crlf ==> forall|k: int| 0 <= k < i && #[trigger] b@[k] == cr() ==> k + 1 < b@.len() && b@[k + 1] == lf(),
            crlf ==> forall|k: int| 0 <= k < i && #[trigger] b@[k] == lf() ==> k > 0 && b@[k - 1] == cr(),
            !crlf ==> !has_byte(b@, 0, i as int, cr()),
        decreases b@.len() - i,
    {
        if crlf {
            if b[i] == 0x0d && !(i + 1 < b.len() && b[i + 1] == 0x0a) {
                return false;
            }
            if b[i] == 0x0a && !(i > 0 && b[i - 1] == 0x0d) {
                return false;
            }
        } else if b[i] == 0x0d {
            return false;
        }
        i = i + 1;
    }
    true
}

/// The bytes without their carriage returns.
fn strip_cr(b: &[u8]) -> (v: Vec<u8>)
    ensures
        v@ == without_cr(b@),
{
    let mut v: Vec<u8> = Vec::new();
    let mut i: usize = 0;
    while i < b.len()
        invariant
            i <= b@.len(),
            v@ == without_cr(b@.take(i as int)),
        decreases b@.len() - i,
    {
        assert(b@.take(i + 1).drop_last() =~= b@.take(i as int));
        if b[i] != 0x0d {
            v.push(b[i]);
        }
        i = i + 1;
    }
    assert(b@.take(b@.len() as int) =~= b@);
    v
}

proof fn lemma_digits_grow(v: Seq<u8>, k: int)
    requires
        0 <= k <= v.len(),
    ensures
        digits_value(v.take(k)) <= digits_value(v),
    decreases v.len(),
{
    if k < v.len() {
        assert(v.drop_last().take(k) =~= v.take(k));
        lemma_digits_grow(v.drop_last(), k);
    } else {
        assert(v.take(k) =~= v);
    }
}

/// Whether a value is a well-formed size.
fn size_ok(v: &Vec<u8>) -> (r: bool)
    ensures
        r == size_value(v@),
{
    if v.len() == 0 {
        return false;
    }
    if v.len() > 1 && v[0] == 0x30 {
        return false;
    }
    let mut value: u128 = 0;
    let mut k: usize = 0;
    while k < v.len()
        invariant
            k <= v@.len(),
            v@.len() > 0,
            v@.len() == 1 || v@[0] != 0x30,
            forall|m: int| 0 <= m < k ==> digit_byte(#[trigger] v@[m]),
            value == digits_value(v@.take(k as int)),
            value <= max_size(),
        decreases v@.len() - k,
    {
        assert(v@.take(k + 1).drop_last() =~= v@.take(k as int));
        if !(0x30 <= v[k] && v[k] <= 0x39) {
            return false;
        }
        value = value * 10 + (v[k] - 0x30) as u128;
        if value > 9_223_372_036_854_775_807 {
            proof {
                lemma_digits_grow(v@, k + 1);
            }
            return false;
        }
        k = k + 1;
    }
    assert(v@.take(v@.len() as int) =~= v@);
    true
}

/// Whether a value is a well-formed `oid`.
fn oid_ok(v: &Vec<u8>) -> (r: bool)
    ensures
        r == oid_value(v@),
{
    if v.len() != 71 || !crate::bytes::starts_with_text(v.as_slice(), "sha256:") {
        return false;
    }
    let mut k: usize = 7;
    while k < 71
        invariant
            7 <= k <= 71,
            v@.len() == 71,
            starts_with(v@, ascii("sha256:"@)),
            forall|m: int| 7 <= m < k ==> hex_byte(#[trigger] v@[m]),
        decreases 71 - k,
    {
        let c = v[k];
        if !((0x30 <= c && c <= 0x39) || (0x61 <= c && c <= 0x66)) {
            return false;
        }
        k = k + 1;
    }
    true
}

/// Checks one entry line, and hands back its key.
fn entry(line: &Vec<u8>) -> (r: (bool, Vec<u8>))
    ensures
        r.0 == entry_ok(line@),
        r.1@ == key_of(line@),
{
    let sp = find_byte(line.as_slice(), 0, line.len(), 0x20);
    proof {
        lemma_next_byte(line@, 0, line@.len() as int, 0x20);
    }
    let key = copy_bytes(line.as_slice(), 0, sp);
    assert(key@ =~= key_of(line@));
    if sp == line.len() {
        return (false, key);
    }
    let value = copy_bytes(line.as_slice(), sp + 1, line.len());
    assert(value@ =~= value_of(line@));
    if value.len() > 0 && value[0] == 0x20 {
        return (false, key);
    }
    if key.len() == 0 {
        return (false, key);
    }
    let mut k: usize = 0;
    while k < key.len()
        invariant
            k <= key@.len(),
            key@ == key_of(line@),
            forall|m: int| 0 <= m < k ==> key_byte(#[trigger] key@[m]),
        decreases key@.len() - k,
    {
        let c = key[k];
        if !((0x61 <= c && c <= 0x7a) || (0x30 <= c && c <= 0x39) || c == 0x2e || c == 0x2d) {
            return (false, key);
        }
        k = k + 1;
    }
    let whole = key.len();
    assert(key@.subrange(0, whole as int) =~= key@);
    if spells(key.as_slice(), 0, whole, "version") {
        return (false, key);
    }
    if spells(key.as_slice(), 0, whole, "oid") && !oid_ok(&value) {
        return (false, key);
    }
    if spells(key.as_slice(), 0, whole, "size") && !size_ok(&value) {
        return (false, key);
    }
    (true, key)
}

/// Bytes-only LFS pointer recognition. A recognized pointer is 1 to 1,023
/// bytes, BOM-free UTF-8, key/value lines under one consistent ending (all
/// LF, or the exact all-CRLF transform), the version line first, the later
/// keys strictly increasing, exactly one well-formed `oid` and one `size`.
/// Anything else, including a missing final ending, is ordinary content.
pub fn is_pointer(bytes: &[u8]) -> (r: bool)
    ensures
        r == is_pointer_spec(bytes@),
{
    if bytes.len() == 0 || bytes.len() > 1023 {
        return false;
    }
    if bytes.len() >= 3 && bytes[0] == 0xef && bytes[1] == 0xbb && bytes[2] == 0xbf {
        assert(bytes@.take(3) =~= seq![0xefu8, 0xbbu8, 0xbfu8]);
        return false;
    }
    assert(!starts_with(bytes@, seq![0xefu8, 0xbbu8, 0xbfu8])) by {
        if bytes@.len() >= 3 && bytes@.take(3) == seq![0xefu8, 0xbbu8, 0xbfu8] {
            assert(bytes@.take(3)[0] == bytes@[0]);
            assert(bytes@.take(3)[1] == bytes@[1]);
            assert(bytes@.take(3)[2] == bytes@[2]);
        }
    }
    if crate::text::utf8_text(bytes).is_none() {
        return false;
    }
    let crlf = crlf_in(bytes);
    if !endings_ok(bytes, crlf) {
        return false;
    }
    let t = strip_cr(bytes);
    if t.len() == 0 || t[t.len() - 1] != 0x0a {
        return false;
    }
    let body = copy_bytes(t.as_slice(), 0, t.len() - 1);
    assert(body@ =~= t@.drop_last());
    let n = body.len();
    let first_end = find_byte(body.as_slice(), 0, n, 0x0a);
    proof {
        lemma_next_byte(body@, 0, n as int, lf());
    }
    let ghost lines = lines_from(body@, 0);
    if !(spells(body.as_slice(), 0, first_end, "version https://git-lfs.github.com/spec/v1")
        || spells(body.as_slice(), 0, first_end, "version https://hawser.github.com/spec/v1")) {
        assert(lines[0] == body@.subrange(0, first_end as int));
        return false;
    }
    if first_end == n {
        assert(lines =~= seq![body@.subrange(0, n as int)]);
        assert(lines.skip(1).len() == 0);
        return false;
    }
    let ghost rest = lines_from(body@, first_end + 1);
    assert(lines.skip(1) =~= rest);
    let mut i: usize = first_end + 1;
    let mut previous: Vec<u8> = Vec::new();
    let mut seen_oid = false;
    let mut seen_size = false;
    let mut any = false;
    let ghost mut done: Seq<Seq<u8>> = seq![];
    loop
        invariant
            n == body@.len(),
            first_end < n,
            i <= n,
            rest == lines_from(body@, first_end + 1),
            rest == done + lines_from(body@, i as int),
            forall|k: int| 0 <= k < done.len() ==> entry_ok(#[trigger] done[k]),
            forall|k: int|
                0 < k < done.len() ==> sorts_before(key_of(done[k - 1]), key_of(#[trigger] done[k])),
            any == (done.len() > 0),
            done.len() > 0 ==> previous@ == key_of(done.last()),
            seen_oid == exists|k: int| 0 <= k < done.len() && key_of(#[trigger] done[k]) == ascii("oid"@),
            seen_size == exists|k: int| 0 <= k < done.len() && key_of(#[trigger] done[k]) == ascii("size"@),
            is_pointer_spec(bytes@) == entries_ok(rest),
        decreases n - i,
    {
        let j = find_byte(body.as_slice(), i, n, 0x0a);
        proof {
            lemma_next_byte(body@, i as int, n as int, lf());
        }
        let line = copy_bytes(body.as_slice(), i, j);
        let ghost tail = lines_from(body@, i as int);
        assert(tail[0] == line@);
        let (ok, key) = entry(&line);
        if !ok {
            assert(rest[done.len() as int] == line@);
            return false;
        }
        if any {
            if !sorts_before_bytes(&previous, &key) {
                assert(rest[done.len() as int] == line@);
                assert(rest[done.len() - 1] == done.last());
                return false;
            }
        }
        let is_oid = spells(key.as_slice(), 0, key.len(), "oid");
        let is_size = spells(key.as_slice(), 0, key.len(), "size");
        proof {
            assert(key@.subrange(0, key@.len() as int) =~= key@);
            let grown = done.push(line@);
            assert forall|k: int| 0 <= k < grown.len() implies entry_ok(#[trigger] grown[k]) by {
                if k < done.len() {
                    assert(grown[k] == done[k]);
                }
            }
            assert forall|k: int| 0 < k < grown.len() implies sorts_before(
                key_of(grown[k - 1]),
                key_of(#[trigger] grown[k]),
            ) by {
                if k < done.len() {
                    assert(grown[k] == done[k]);
                    assert(grown[k - 1] == done[k - 1]);
                } else {
                    assert(grown[k - 1] == done.last());
                }
            }
            if seen_oid {
                let w = choose|k: int| 0 <= k < done.len() && key_of(#[trigger] done[k]) == ascii("oid"@);
                assert(grown[w] == done[w]);
            }
            if is_oid {
                assert(key_of(grown[done.len() as int]) == ascii("oid"@));
            }
            if exists|k: int| 0 <= k < grown.len() && key_of(#[trigger] grown[k]) == ascii("oid"@) {
                let w = choose|k: int| 0 <= k < grown.len() && key_of(#[trigger] grown[k]) == ascii("oid"@);
                if w < done.len() {
                    assert(grown[w] == done[w]);
                }
            }
            if seen_size {
                let w = choose|k: int| 0 <= k < done.len() && key_of(#[trigger] done[k]) == ascii("size"@);
                assert(grown[w] == done[w]);
            }
            if is_size {
                assert(key_of(grown[done.len() as int]) == ascii("size"@));
            }
            if exists|k: int| 0 <= k < grown.len() && key_of(#[trigger] grown[k]) == ascii("size"@) {
                let w = choose|k: int| 0 <= k < grown.len() && key_of(#[trigger] grown[k]) == ascii("size"@);
                if w < done.len() {
                    assert(grown[w] == done[w]);
                }
            }
        }
        seen_oid = seen_oid || is_oid;
        seen_size = seen_size || is_size;
        previous = key;
        any = true;
        if j == n {
            proof {
                assert(tail =~= seq![line@]);
                assert(rest =~= done.push(line@));
                done = done.push(line@);
            }
            return seen_oid && seen_size;
        }
        proof {
            assert(tail =~= seq![line@] + lines_from(body@, j + 1));
            assert(rest =~= done.push(line@) + lines_from(body@, j + 1));
            done = done.push(line@);
        }
        i = j + 1;
    }
}

} // verus!
