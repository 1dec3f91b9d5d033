//! What a declared label looks like, and that the indentation in front of a
//! declaration never changes the label it declares.

use vstd::prelude::*;

use crate::rst::directive::{bare_label, cell_label, declared_label, lemma_trim, trim_hi, trim_lo, unbulleted};
use crate::text::{back_space, find, has_char, is_space, lemma_find, lemma_skip_space, skip_space, starts};

verus! {

/// The label text a line declares, if any.
pub open spec fn declared_text(t: Seq<char>) -> Option<Seq<char>> {
    match declared_label(t, 0, t.len() as int) {
        Some(w) => Some(t.subrange(w.0, w.1)),
        None => None,
    }
}

/// A window moved `d` places along.
pub open spec fn moved(w: Option<(int, int)>, d: int) -> Option<(int, int)> {
    match w {
        Some((a, b)) => Some((a + d, b + d)),
        None => None,
    }
}

/// `u` holds the window `[lo, hi)` of `t`, `d` places further along.
pub open spec fn holds_window(t: Seq<char>, u: Seq<char>, d: int, lo: int, hi: int) -> bool {
    &&& 0 <= d
    &&& 0 <= lo <= hi <= t.len()
    &&& hi + d <= u.len()
    &&& forall|i: int| lo <= i < hi ==> #[trigger] u[i + d] == t[i]
}

proof fn lemma_within(t: Seq<char>, u: Seq<char>, d: int, lo: int, hi: int, a: int, b: int)
    requires
        holds_window(t, u, d, lo, hi),
        lo <= a <= b <= hi,
    ensures
        holds_window(t, u, d, a, b),
{
}

proof fn lemma_moved_skip(t: Seq<char>, u: Seq<char>, d: int, i: int, hi: int)
    requires
        holds_window(t, u, d, i, hi),
    ensures
        skip_space(u, i + d, hi + d) == skip_space(t, i, hi) + d,
    decreases hi - i,
{
    if i < hi {
        assert(u[i + d] == t[i]);
        if is_space(t[i]) {
            lemma_moved_skip(t, u, d, i + 1, hi);
        }
    }
}

proof fn lemma_moved_back(t: Seq<char>, u: Seq<char>, d: int, lo: int, j: int)
    requires
        holds_window(t, u, d, lo, j),
    ensures
        back_space(u, lo + d, j + d) == back_space(t, lo, j) + d,
    decreases j - lo,
{
    if lo < j {
        assert(u[j - 1 + d] == t[j - 1]);
        if is_space(t[j - 1]) {
            lemma_moved_back(t, u, d, lo, j - 1);
        }
    }
}

proof fn lemma_moved_trim(t: Seq<char>, u: Seq<char>, d: int, a: int, b: int)
    requires
        holds_window(t, u, d, a, b),
    ensures
        trim_lo(u, a + d, b + d) == trim_lo(t, a, b) + d,
        trim_hi(u, a + d, b + d) == trim_hi(t, a, b) + d,
{
    lemma_moved_skip(t, u, d, a, b);
    lemma_skip_space(t, a, b);
    lemma_moved_back(t, u, d, skip_space(t, a, b), b);
}

proof fn lemma_moved_find(t: Seq<char>, u: Seq<char>, d: int, i: int, hi: int, c: char)
    requires
        holds_window(t, u, d, i, hi),
    ensures
        find(u, i + d, hi + d, c) == find(t, i, hi, c) + d,
    decreases hi - i,
{
    if i < hi {
        assert(u[i + d] == t[i]);
        if t[i] != c {
            lemma_moved_find(t, u, d, i + 1, hi, c);
        }
    }
}

proof fn lemma_moved_starts(t: Seq<char>, u: Seq<char>, d: int, i: int, hi: int, p: Seq<char>)
    requires
        holds_window(t, u, d, i, hi),
    ensures
        starts(u, i + d, hi + d, p) == starts(t, i, hi, p),
{
    if i + p.len() <= hi {
        let us = u.subrange(i + d, i + d + p.len());
        let ts = t.subrange(i, i + p.len());
        assert(us =~= ts) by {
            assert forall|k: int| 0 <= k < p.len() implies #[trigger] us[k] == ts[k] by {
                assert(u[i + k + d] == t[i + k]);
            }
        }
    }
}

proof fn lemma_moved_has(t: Seq<char>, u: Seq<char>, d: int, a: int, b: int, c: char)
    requires
        holds_window(t, u, d, a, b),
    ensures
        has_char(u, a + d, b + d, c) == has_char(t, a, b, c),
{
    if has_char(t, a, b, c) {
        let k = choose|k: int| a <= k < b && #[trigger] t[k] == c;
        assert(u[k + d] == t[k]);
    }
    if has_char(u, a + d, b + d, c) {
        let k = choose|k: int| a + d <= k < b + d && #[trigger] u[k] == c;
        assert(u[(k - d) + d] == t[k - d]);
    }
}

proof fn lemma_moved_bare(t: Seq<char>, u: Seq<char>, d: int, a: int, b: int)
    requires
        holds_window(t, u, d, a, b),
    ensures
        bare_label(u, a + d, b + d) == moved(bare_label(t, a, b), d),
{
    lemma_moved_starts(t, u, d, a, b, seq!['.', '.', ' ', '_']);
    if starts(t, a, b, seq!['.', '.', ' ', '_']) {
        if a + 4 < b {
            assert(u[b - 1 + d] == t[b - 1]);
        }
        let e = if a + 4 < b && t[b - 1] == '\r' { b - 1 } else { b };
        if a + 4 < e {
            assert(u[e - 1 + d] == t[e - 1]);
            if t[e - 1] == ':' {
                lemma_within(t, u, d, a, b, a + 4, e - 1);
                lemma_moved_trim(t, u, d, a + 4, e - 1);
                lemma_trim(t, a + 4, e - 1);
                let x0 = trim_lo(t, a + 4, e - 1);
                let x1 = trim_hi(t, a + 4, e - 1);
                if x1 - x0 >= 2 {
                    assert(u[x0 + d] == t[x0]);
                    assert(u[x1 - 1 + d] == t[x1 - 1]);
                    if t[x0] == '`' && t[x1 - 1] == '`' {
                        lemma_within(t, u, d, a, b, x0 + 1, x1 - 1);
                        lemma_moved_trim(t, u, d, x0 + 1, x1 - 1);
                        lemma_trim(t, x0 + 1, x1 - 1);
                        let y0 = trim_lo(t, x0 + 1, x1 - 1);
                        let y1 = trim_hi(t, x0 + 1, x1 - 1);
                        lemma_within(t, u, d, a, b, y0, y1);
                        lemma_moved_has(t, u, d, y0, y1, '|');
                    } else {
                        lemma_within(t, u, d, a, b, x0, x1);
                        lemma_moved_has(t, u, d, x0, x1, '|');
                    }
                } else {
                    lemma_within(t, u, d, a, b, x0, x1);
                    lemma_moved_has(t, u, d, x0, x1, '|');
                }
            }
        }
    }
}

proof fn lemma_moved_cell(t: Seq<char>, u: Seq<char>, d: int, a: int, b: int)
    requires
        holds_window(t, u, d, a, b),
    ensures
        cell_label(u, a + d, b + d) == moved(cell_label(t, a, b), d),
    decreases b - a,
{
    lemma_moved_find(t, u, d, a, b, '|');
    lemma_find(t, a, b, '|');
    let f = find(t, a, b, '|');
    lemma_within(t, u, d, a, b, a, f);
    lemma_moved_trim(t, u, d, a, f);
    lemma_trim(t, a, f);
    lemma_within(t, u, d, a, b, trim_lo(t, a, f), trim_hi(t, a, f));
    lemma_moved_bare(t, u, d, trim_lo(t, a, f), trim_hi(t, a, f));
    if a <= f < b {
        lemma_within(t, u, d, a, b, f + 1, b);
        lemma_moved_cell(t, u, d, f + 1, b);
    }
}

proof fn lemma_moved_declared(t: Seq<char>, u: Seq<char>, d: int, lo: int, hi: int)
    requires
        holds_window(t, u, d, lo, hi),
    ensures
        declared_label(u, lo + d, hi + d) == moved(declared_label(t, lo, hi), d),
{
    lemma_moved_skip(t, u, d, lo, hi);
    lemma_skip_space(t, lo, hi);
    let ts = skip_space(t, lo, hi);
    lemma_within(t, u, d, lo, hi, ts, hi);
    lemma_moved_starts(t, u, d, ts, hi, seq!['*', ' ']);
    lemma_moved_starts(t, u, d, ts, hi, seq!['-', ' ']);
    lemma_moved_starts(t, u, d, ts, hi, seq!['+', ' ']);
    lemma_moved_starts(t, u, d, ts, hi, seq!['|']);
    if ts + 2 <= hi {
        lemma_within(t, u, d, lo, hi, ts + 2, hi);
        lemma_moved_skip(t, u, d, ts + 2, hi);
        lemma_skip_space(t, ts + 2, hi);
    }
    let ub = unbulleted(t, ts, hi);
    assert(unbulleted(u, ts + d, hi + d) == ub + d);
    assert(ts <= ub <= hi) by {
        if ts + 2 <= hi {
            lemma_skip_space(t, ts + 2, hi);
        }
    }
    lemma_within(t, u, d, lo, hi, ub, hi);
    lemma_moved_bare(t, u, d, ub, hi);
    lemma_moved_cell(t, u, d, ts, hi);
}

proof fn lemma_skip_over(t: Seq<char>, i: int, j: int, hi: int)
    requires
        0 <= i <= j <= hi <= t.len(),
        forall|k: int| i <= k < j ==> is_space(#[trigger] t[k]),
    ensures
        skip_space(t, i, hi) == skip_space(t, j, hi),
    decreases j - i,
{
    if i < j {
        assert(is_space(t[i]));
        lemma_skip_over(t, i + 1, j, hi);
    }
}

/// Whitespace in front of a line never changes the label it declares.
pub proof fn lemma_label_ignores_indentation(ws: Seq<char>, line: Seq<char>)
    requires
        forall|k: int| 0 <= k < ws.len() ==> is_space(#[trigger] ws[k]),
    ensures
        declared_text(ws + line) == declared_text(line),
{
    let u = ws + line;
    let d = ws.len() as int;
    let n = u.len() as int;
    let m = line.len() as int;
    assert forall|i: int| 0 <= i < m implies #[trigger] u[i + d] == line[i] by {}
    lemma_moved_declared(line, u, d, 0, m);
    assert forall|k: int| 0 <= k < d implies is_space(#[trigger] u[k]) by {
        assert(u[k] == ws[k]);
    }
    lemma_skip_over(u, 0, d, n);
    assert(declared_label(u, 0, n) == declared_label(u, d, n));
    match declared_label(line, 0, m) {
        Some(w) => {
            lemma_label_shape(line, 0, m);
            assert(u.subrange(w.0 + d, w.1 + d) =~= line.subrange(w.0, w.1));
        },
        None => {},
    }
}

proof fn lemma_bare_shape(t: Seq<char>, a: int, b: int)
    requires
        0 <= a <= b <= t.len(),
        bare_label(t, a, b) is Some,
    ensures
        ({
            let w = bare_label(t, a, b).unwrap();
            &&& a <= w.0 < w.1 <= b
            &&& !has_char(t, w.0, w.1, '|')
            &&& !is_space(t[w.0])
            &&& !is_space(t[w.1 - 1])
        }),
{
    let e = if a + 4 < b && t[b - 1] == '\r' { b - 1 } else { b };
    lemma_trim(t, a + 4, e - 1);
    let x0 = trim_lo(t, a + 4, e - 1);
    let x1 = trim_hi(t, a + 4, e - 1);
    if x1 - x0 >= 2 && t[x0] == '`' && t[x1 - 1] == '`' {
        lemma_trim(t, x0 + 1, x1 - 1);
    }
}

proof fn lemma_cell_shape(t: Seq<char>, a: int, b: int)
    requires
        0 <= a <= b <= t.len(),
        cell_label(t, a, b) is Some,
    ensures
        ({
            let w = cell_label(t, a, b).unwrap();
            &&& a <= w.0 < w.1 <= b
            &&& !has_char(t, w.0, w.1, '|')
            &&& !is_space(t[w.0])
            &&& !is_space(t[w.1 - 1])
        }),
    decreases b - a,
{
    lemma_find(t, a, b, '|');
    let f = find(t, a, b, '|');
    lemma_trim(t, a, f);
    if bare_label(t, trim_lo(t, a, f), trim_hi(t, a, f)) is Some {
        lemma_bare_shape(t, trim_lo(t, a, f), trim_hi(t, a, f));
    } else {
        lemma_cell_shape(t, f + 1, b);
    }
}

/// A declared label is never empty, holds no `|`, and neither begins nor ends
/// with whitespace.
pub proof fn lemma_label_shape(t: Seq<char>, lo: int, hi: int)
    requires
        0 <= lo <= hi <= t.len(),
        declared_label(t, lo, hi) is Some,
    ensures
        ({
            let w = declared_label(t, lo, hi).unwrap();
            &&& lo <= w.0 < w.1 <= hi
            &&& !has_char(t, w.0, w.1, '|')
            &&& !is_space(t[w.0])
            &&& !is_space(t[w.1 - 1])
        }),
{
    lemma_skip_space(t, lo, hi);
    let ts = skip_space(t, lo, hi);
    if ts + 2 <= hi {
        lemma_skip_space(t, ts + 2, hi);
    }
    let ub = unbulleted(t, ts, hi);
    if bare_label(t, ub, hi) is Some {
        lemma_bare_shape(t, ub, hi);
    } else {
        lemma_cell_shape(t, ts, hi);
    }
}

/// The text a line declares is not empty, holds no `|`, and is already
/// trimmed.
pub proof fn lemma_declared_text_shape(t: Seq<char>)
    requires
        declared_text(t) is Some,
    ensures
        ({
            let s = declared_text(t).unwrap();
            &&& s.len() > 0
            &&& !s.contains('|')
            &&& !is_space(s[0])
            &&& !is_space(s[s.len() - 1])
        }),
{
    lemma_label_shape(t, 0, t.len() as int);
    let w = declared_label(t, 0, t.len() as int).unwrap();
    let s = t.subrange(w.0, w.1);
    assert(s[0] == t[w.0]);
    assert(s[s.len() - 1] == t[w.1 - 1]);
    if s.contains('|') {
        let k = choose|k: int| 0 <= k < s.len() && s[k] == '|';
        assert(t[w.0 + k] == '|');
    }
}

} // verus!
