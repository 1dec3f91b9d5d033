//! The references one line makes, the label a line declares, and the
//! underline that makes a line a section title.

use vstd::prelude::*;

use crate::rst::block::{insert_pos, span_before, span_le, span_sort};
use crate::rst::{
    kind_spelling, views, Reference, ReferenceKind, ReferenceView, TransclusionKind,
};
use crate::unicode::{alphanumeric, is_alphanumeric};
use crate::text::{
    any_char, any_space, back_space, back_spaces, byte_len, chars_of, ends, ends_at, equals,
    equals_at, find, find_char, has_char, has_space, is_space, lemma_back_space, lemma_find,
    lemma_len_le_byte_len, lemma_offset_monotone, lemma_offset_step, lemma_rfind, lemma_skip_space, offset, rfind,
    rfind_char, skip_space, skip_spaces, starts, starts_at, text_of, char_width,
};

verus! {

/// The start of a window once leading whitespace is dropped.
pub open spec fn trim_lo(t: Seq<char>, a: int, b: int) -> int {
    skip_space(t, a, b)
}

/// The end of a window once trailing whitespace is dropped.
pub open spec fn trim_hi(t: Seq<char>, a: int, b: int) -> int {
    back_space(t, skip_space(t, a, b), b)
}

pub proof fn lemma_trim(t: Seq<char>, a: int, b: int)
    requires
        0 <= a <= b <= t.len(),
    ensures
        a <= trim_lo(t, a, b) <= trim_hi(t, a, b) <= b,
        trim_lo(t, a, b) < trim_hi(t, a, b) ==> !is_space(t[trim_lo(t, a, b)]) && !is_space(
            t[trim_hi(t, a, b) - 1],
        ),
{
    lemma_skip_space(t, a, b);
    lemma_back_space(t, skip_space(t, a, b), b);
}

/// The trimmed window, computed.
fn trim(t: &[char], a: usize, b: usize) -> (r: (usize, usize))
    requires
        a <= b <= t@.len(),
    ensures
        r.0 == trim_lo(t@, a as int, b as int),
        r.1 == trim_hi(t@, a as int, b as int),
        a <= r.0 <= r.1 <= b,
{
    proof {
        lemma_trim(t@, a as int, b as int);
    }
    let x = skip_spaces(t, a, b);
    let y = back_spaces(t, x, b);
    (x, y)
}

/// Whether a window holds one word: something, and no whitespace.
pub open spec fn word(t: Seq<char>, a: int, b: int) -> bool {
    a < b && !has_space(t, a, b)
}

/// The bytes from the start of a window at `lo` to index `k`.
pub open spec fn rel(t: Seq<char>, lo: int, k: int) -> usize {
    (offset(t, k) - offset(t, lo)) as usize
}

/// The bytes between two indices, computed.
pub fn bytes_between(t: &[char], i: usize, j: usize) -> (n: usize)
    requires
        i <= j <= t@.len(),
        byte_len(t@) <= usize::MAX,
    ensures
        n == rel(t@, i as int, j as int),
        offset(t@, i as int) <= offset(t@, j as int),
{
    let mut k = i;
    let mut n: usize = 0;
    proof {
        lemma_offset_monotone(t@, i as int, j as int);
    }
    while k < j
        invariant
            i <= k <= j <= t@.len(),
            n == offset(t@, k as int) - offset(t@, i as int),
            offset(t@, i as int) <= offset(t@, k as int),
            byte_len(t@) <= usize::MAX,
        decreases j - k,
    {
        proof {
            lemma_offset_step(t@, k as int);
            lemma_offset_monotone(t@, k + 1, t@.len() as int);
            assert(t@.take(t@.len() as int) =~= t@);
        }
        n = n + char_width(t[k]);
        k = k + 1;
    }
    n
}

/// A reference to `[a, b)` spanning bytes `s` to `e` of a window that starts
/// at document byte `at`.
pub open spec fn built(
    kind: ReferenceKind,
    t: Seq<char>,
    a: int,
    b: int,
    at: usize,
    s: usize,
    e: usize,
) -> ReferenceView {
    ReferenceView {
        kind,
        target: t.subrange(a, b),
        selection: None,
        span: (at.saturating_add(s), at.saturating_add(e)),
        block: 0,
        block_span: (0, 0),
        transclusion: None,
    }
}

fn build(kind: ReferenceKind, t: &[char], a: usize, b: usize, at: usize, s: usize, e: usize) -> (r:
    Reference)
    requires
        a <= b <= t@.len(),
    ensures
        r@ == built(kind, t@, a as int, b as int, at, s, e),
{
    Reference {
        kind,
        target: text_of(t, a, b),
        selection: None,
        span: (at.saturating_add(s), at.saturating_add(e)),
        block: 0,
        block_span: (0, 0),
        transclusion: None,
    }
}

// ---------------------------------------------------------------------------
// Labels

/// The label a bare `.. _label:` declaration in `[a, b)` names. A phrase
/// label arrives backtick-quoted and the quotes are spelling, not name; a
/// label holding a table rule `|` names nothing.
pub open spec fn bare_label(t: Seq<char>, a: int, b: int) -> Option<(int, int)> {
    if !starts(t, a, b, seq!['.', '.', ' ', '_']) {
        None
    } else {
        let e = if a + 4 < b && t[b - 1] == '\r' {
            b - 1
        } else {
            b
        };
        if !(a + 4 < e && t[e - 1] == ':') {
            None
        } else {
            let x0 = trim_lo(t, a + 4, e - 1);
            let x1 = trim_hi(t, a + 4, e - 1);
            let (y0, y1) = if x1 - x0 >= 2 && t[x0] == '`' && t[x1 - 1] == '`' {
                (trim_lo(t, x0 + 1, x1 - 1), trim_hi(t, x0 + 1, x1 - 1))
            } else {
                (x0, x1)
            };
            if y0 < y1 && !has_char(t, y0, y1, '|') {
                Some((y0, y1))
            } else {
                None
            }
        }
    }
}

/// The first cell of a grid-table row `[a, b)`, split at `|`, whose trimmed
/// text is a bare declaration.
pub open spec fn cell_label(t: Seq<char>, a: int, b: int) -> Option<(int, int)>
    decreases b - a,
{
    let f = find(t, a, b, '|');
    match bare_label(t, trim_lo(t, a, f), trim_hi(t, a, f)) {
        Some(l) => Some(l),
        None => if a <= f < b {
            cell_label(t, f + 1, b)
        } else {
            None
        },
    }
}

/// The window a line's declaration stands in once a bullet is dropped.
pub open spec fn unbulleted(t: Seq<char>, ts: int, hi: int) -> int {
    if starts(t, ts, hi, seq!['*', ' ']) || starts(t, ts, hi, seq!['-', ' ']) || starts(
        t,
        ts,
        hi,
        seq!['+', ' '],
    ) {
        skip_space(t, ts + 2, hi)
    } else {
        ts
    }
}

/// The internal label the line `[lo, hi)` declares: alone, as the body of a
/// list item, or alone in a grid-table cell.
pub open spec fn declared_label(t: Seq<char>, lo: int, hi: int) -> Option<(int, int)> {
    let ts = skip_space(t, lo, hi);
    match bare_label(t, unbulleted(t, ts, hi), hi) {
        Some(l) => Some(l),
        None => if starts(t, ts, hi, seq!['|']) {
            cell_label(t, ts, hi)
        } else {
            None
        },
    }
}

fn bare_target(t: &[char], a: usize, b: usize) -> (r: Option<(usize, usize)>)
    requires
        a <= b <= t@.len(),
    ensures
        r matches Some(l) ==> bare_label(t@, a as int, b as int) == Some((l.0 as int, l.1 as int))
            && a <= l.0 <= l.1 <= b,
        r is None ==> bare_label(t@, a as int, b as int) is None,
{
    let opener = ['.', '.', ' ', '_'];
    assert(opener@ == seq!['.', '.', ' ', '_']);
    if !starts_at(t, a, b, opener.as_slice()) {
        return None;
    }
    let e = if a + 4 < b && t[b - 1] == '\r' {
        b - 1
    } else {
        b
    };
    if !(a + 4 < e && t[e - 1] == ':') {
        return None;
    }
    let (x0, x1) = trim(t, a + 4, e - 1);
    let (y0, y1) = if x1 - x0 >= 2 && t[x0] == '`' && t[x1 - 1] == '`' {
        trim(t, x0 + 1, x1 - 1)
    } else {
        (x0, x1)
    };
    if y0 < y1 && !any_char(t, y0, y1, '|') {
        Some((y0, y1))
    } else {
        None
    }
}

fn cell_target(t: &[char], a: usize, b: usize) -> (r: Option<(usize, usize)>)
    requires
        a <= b <= t@.len(),
    ensures
        r matches Some(l) ==> cell_label(t@, a as int, b as int) == Some((l.0 as int, l.1 as int))
            && l.0 <= l.1 <= b,
        r is None ==> cell_label(t@, a as int, b as int) is None,
    decreases b - a,
{
    let f = find_char(t, a, b, '|');
    proof {
        lemma_find(t@, a as int, b as int, '|');
    }
    let (c0, c1) = trim(t, a, f);
    match bare_target(t, c0, c1) {
        Some(l) => Some(l),
        None => {
            if f < b {
                cell_target(t, f + 1, b)
            } else {
                None
            }
        },
    }
}

fn declared_target(t: &[char], lo: usize, hi: usize) -> (r: Option<(usize, usize)>)
    requires
        lo <= hi <= t@.len(),
    ensures
        r matches Some(l) ==> declared_label(t@, lo as int, hi as int) == Some(
            (l.0 as int, l.1 as int),
        ) && l.0 <= l.1 <= t@.len(),
        r is None ==> declared_label(t@, lo as int, hi as int) is None,
{
    let ts = skip_spaces(t, lo, hi);
    let star = ['*', ' '];
    let dash = ['-', ' '];
    let plus = ['+', ' '];
    let bar = ['|'];
    assert(star@ == seq!['*', ' ']);
    assert(dash@ == seq!['-', ' ']);
    assert(plus@ == seq!['+', ' ']);
    assert(bar@ == seq!['|']);
    let u = if starts_at(t, ts, hi, star.as_slice()) || starts_at(t, ts, hi, dash.as_slice())
        || starts_at(t, ts, hi, plus.as_slice()) {
        skip_spaces(t, ts + 2, hi)
    } else {
        ts
    };
    if let Some(l) = bare_target(t, u, hi) {
        return Some(l);
    }
    if starts_at(t, ts, hi, bar.as_slice()) {
        return cell_target(t, ts, hi);
    }
    None
}

/// The label the line `[lo, hi)` declares, as a string.
pub(crate) fn declared_text(t: &[char], lo: usize, hi: usize) -> (r: Option<String>)
    requires
        lo <= hi <= t@.len(),
    ensures
        match r {
            Some(s) => declared_label(t@, lo as int, hi as int) matches Some(w) && s@
                == t@.subrange(w.0, w.1),
            None => declared_label(t@, lo as int, hi as int) is None,
        },
{
    match declared_target(t, lo, hi) {
        Some((a, b)) => Some(text_of(t, a, b)),
        None => None,
    }
}

/// An internal label a document declares, which publishes an anchor identity.
/// A phrase label arrives backtick-quoted, `.. _`name`:`, and the quotes are
/// spelling, not name. Docutils allows a target wherever block content goes,
/// so a declaration also counts as the body of a list item or alone in a
/// grid-table cell.
pub fn target_definition(line: &str) -> (label: Option<String>)
    ensures
        label matches Some(l) ==> (declared_label(line@, 0, line@.len() as int) matches Some(
            w,
        ) && l@ == line@.subrange(w.0, w.1)),
        label is None ==> declared_label(line@, 0, line@.len() as int) is None,
{
    let t = chars_of(line);
    match declared_target(t.as_slice(), 0, t.len()) {
        Some((a, b)) => Some(text_of(t.as_slice(), a, b)),
        None => None,
    }
}

// ---------------------------------------------------------------------------
// Section underlines

/// The character a line underlines its title with: a run of one
/// non-alphanumeric, non-space character, at least two long and at least as
/// long as the title it follows, trailing whitespace aside on both.
pub open spec fn underline(line: Seq<char>, title: Seq<char>) -> Option<char> {
    let e = back_space(line, 0, line.len() as int);
    if e < 2 || alphanumeric(line[0]) || is_space(line[0]) {
        None
    } else if (forall|k: int| 0 <= k < e ==> #[trigger] line[k] == line[0]) && e >= back_space(
        title,
        0,
        title.len() as int,
    ) {
        Some(line[0])
    } else {
        None
    }
}

/// A section underline: a run of one punctuation character at least as long
/// as the title it follows.
pub fn title_underline(line: &str, title: &str) -> (r: Option<char>)
    ensures
        r == underline(line@, title@),
{
    let l = chars_of(line);
    let tt = chars_of(title);
    underline_of(l.as_slice(), tt.as_slice())
}

/// The underline character of `l` beneath the title `tt`.
pub(crate) fn underline_of(l: &[char], tt: &[char]) -> (r: Option<char>)
    ensures
        r == underline(l@, tt@),
{
    let e = back_spaces(l, 0, l.len());
    proof {
        lemma_back_space(l@, 0, l@.len() as int);
    }
    if e < 2 {
        return None;
    }
    let first = l[0];
    if is_alphanumeric(first) || crate::text::space(first) {
        return None;
    }
    let mut k: usize = 0;
    while k < e
        invariant
            k <= e <= l@.len(),
            e >= 2,
            first == l@[0],
            e == back_space(l@, 0, l@.len() as int),
            !alphanumeric(first),
            !is_space(first),
            forall|m: int| 0 <= m < k ==> l@[m] == first,
        decreases e - k,
    {
        if l[k] != first {
            assert(l@[k as int] != l@[0]);
            assert(!(forall|m: int| 0 <= m < e ==> #[trigger] l@[m] == l@[0]));
            return None;
        }
        k = k + 1;
    }
    let te = back_spaces(tt, 0, tt.len());
    if e >= te {
        Some(first)
    } else {
        None
    }
}


// ---------------------------------------------------------------------------
// References

pub open spec fn dot_dot_space() -> Seq<char> {
    seq!['.', '.', ' ']
}

pub open spec fn image_name() -> Seq<char> {
    seq!['i', 'm', 'a', 'g', 'e', ':', ':']
}

pub open spec fn figure_name() -> Seq<char> {
    seq!['f', 'i', 'g', 'u', 'r', 'e', ':', ':']
}

pub open spec fn include_name() -> Seq<char> {
    seq!['i', 'n', 'c', 'l', 'u', 'd', 'e', ':', ':']
}

pub open spec fn literalinclude_name() -> Seq<char> {
    seq!['l', 'i', 't', 'e', 'r', 'a', 'l', 'i', 'n', 'c', 'l', 'u', 'd', 'e', ':', ':']
}

pub open spec fn file_name() -> Seq<char> {
    seq![':', 'f', 'i', 'l', 'e', ':']
}

pub open spec fn doc_opener() -> Seq<char> {
    seq![':', 'd', 'o', 'c', ':', '`']
}

pub open spec fn ref_opener() -> Seq<char> {
    seq![':', 'r', 'e', 'f', ':', '`']
}

/// The four directives that name a path, read at `r`: the length of the
/// name, the form it is, and how it transcludes what it names.
pub open spec fn directive_form(t: Seq<char>, r: int, hi: int) -> Option<
    (int, ReferenceKind, Option<TransclusionKind>),
> {
    if starts(t, r, hi, image_name()) {
        Some((7, ReferenceKind::Image, None))
    } else if starts(t, r, hi, figure_name()) {
        Some((8, ReferenceKind::Image, None))
    } else if starts(t, r, hi, include_name()) {
        Some((9, ReferenceKind::Include, Some(TransclusionKind::Parsed)))
    } else if starts(t, r, hi, literalinclude_name()) {
        Some((16, ReferenceKind::Include, Some(TransclusionKind::Literal)))
    } else {
        None
    }
}

/// The last `: ` in `[lo, j)`.
pub open spec fn rfind_colon_space(t: Seq<char>, lo: int, j: int) -> Option<int>
    decreases j - lo,
{
    if lo + 2 <= j {
        if t[j - 2] == ':' && t[j - 1] == ' ' {
            Some(j - 2)
        } else {
            rfind_colon_space(t, lo, j - 1)
        }
    } else {
        None
    }
}

/// A destination ending `_` names another target, docutils' indirect form,
/// which is an alias rather than anything a tree can answer.
pub open spec fn indirect_at(t: Seq<char>, a: int, b: int) -> bool {
    a < b && t[b - 1] == '_'
}

/// Whether the destination `[a, b)` is an indirect one.
fn indirect(t: &[char], a: usize, b: usize) -> (r: bool)
    requires
        a <= b <= t@.len(),
    ensures
        r == indirect_at(t@, a as int, b as int),
{
    a < b && t[b - 1] == '_'
}

/// `.. _name: target` names an external hyperlink target, read from what
/// follows the `.. ` at `r`; an indirect destination is left out.
pub open spec fn named_destination(t: Seq<char>, r: int, hi: int) -> Option<(int, int)> {
    if !starts(t, r, hi, seq!['_']) {
        None
    } else {
        match rfind_colon_space(t, r + 1, hi) {
            Some(k) => {
                let a0 = trim_lo(t, k + 2, hi);
                let a1 = trim_hi(t, k + 2, hi);
                if word(t, a0, a1) && !indirect_at(t, a0, a1) {
                    Some((a0, a1))
                } else {
                    None
                }
            },
            None => None,
        }
    }
}

/// The `:file:` option that `csv-table` and `raw` take, read at `ts`.
pub open spec fn file_value(t: Seq<char>, ts: int, hi: int) -> Option<(int, int)> {
    if !starts(t, ts, hi, file_name()) {
        None
    } else {
        let a0 = trim_lo(t, ts + 6, hi);
        let a1 = trim_hi(t, ts + 6, hi);
        if word(t, a0, a1) && t[a0] != '`' {
            Some((a0, a1))
        } else {
            None
        }
    }
}

pub open spec fn with_transclusion(r: ReferenceView, tr: Option<TransclusionKind>) -> ReferenceView {
    ReferenceView {
        transclusion: match tr {
            Some(k) => Some(Ok(k)),
            None => None,
        },
        ..r
    }
}

/// What a line `[lo, hi)` makes when it is a path directive, a named target
/// or a `:file:` option; `None` when it is none of these, and its
/// interpreted text is read instead.
pub open spec fn line_form(t: Seq<char>, lo: int, hi: int, at: usize) -> Option<
    Seq<ReferenceView>,
> {
    let ts = skip_space(t, lo, hi);
    let lead = rel(t, lo, ts);
    let len = rel(t, lo, hi);
    let explicit = starts(t, ts, hi, dot_dot_space());
    if explicit && directive_form(t, ts + 3, hi) is Some {
        let (n, kind, tr) = directive_form(t, ts + 3, hi)->0;
        let a0 = trim_lo(t, ts + 3 + n, hi);
        let a1 = trim_hi(t, ts + 3 + n, hi);
        if word(t, a0, a1) && !ends(t, a0, a1, seq!['.', '*']) {
            Some(
                seq![
                    with_transclusion(built(kind, t, a0, a1, at, rel(t, lo, ts + 3), len), tr),
                ],
            )
        } else {
            Some(Seq::empty())
        }
    } else if explicit && named_destination(t, ts + 3, hi) is Some {
        let w = named_destination(t, ts + 3, hi)->0;
        Some(seq![built(ReferenceKind::NamedTarget, t, w.0, w.1, at, rel(t, lo, ts + 3), len)])
    } else if file_value(t, ts, hi) is Some {
        let w = file_value(t, ts, hi)->0;
        Some(seq![built(ReferenceKind::FileOption, t, w.0, w.1, at, lead, len)])
    } else {
        None
    }
}

/// The delimiter state of interpreted text: where an open `:doc:` role, an
/// open `:ref:` role and an open backtick started, and what has been read.
pub struct Interpreted {
    pub doc: Option<int>,
    pub rf: Option<int>,
    pub inline: Option<int>,
    pub found: Seq<ReferenceView>,
}

/// A character that makes the role after it part of a longer role name.
pub open spec fn name_char(c: char) -> bool {
    ('a' <= c && c <= 'z') || ('A' <= c && c <= 'Z') || ('0' <= c && c <= '9') || c == '_' || c
        == '+' || c == '.' || c == '-' || c == ':'
}

/// Where a role opener ending in the backtick at `tick` starts, unless a name
/// character before it makes it part of a longer role.
pub open spec fn role_opens(t: Seq<char>, lo: int, tick: int, opener: Seq<char>) -> Option<int> {
    let start = tick - 5;
    if start < lo {
        None
    } else if !(start > lo && name_char(t[start - 1])) && equals(t, start, tick + 1, opener) {
        Some(start)
    } else {
        None
    }
}

/// The target a role body `[b0, b1)` names: the part in angle brackets when it
/// ends in one, otherwise the body, trimmed.
pub open spec fn role_window(t: Seq<char>, b0: int, b1: int) -> (int, int) {
    let (c0, c1) = match rfind(t, b0, b1, '<') {
        Some(p) => if p + 1 < b1 && t[b1 - 1] == '>' {
            (p + 1, b1 - 1)
        } else {
            (b0, b1)
        },
        None => (b0, b1),
    };
    (trim_lo(t, c0, c1), trim_hi(t, c0, c1))
}

/// The reference a role opened at `start` and closed at `tick` makes: any
/// label for `:ref:`, one word for `:doc:`, and never a backtick.
pub open spec fn role_close(
    t: Seq<char>,
    lo: int,
    at: usize,
    start: int,
    tick: int,
    kind: ReferenceKind,
) -> Seq<ReferenceView> {
    let (x0, x1) = role_window(t, start + 6, tick);
    if x0 < x1 && (kind == ReferenceKind::RefRole || !has_space(t, x0, x1)) && !has_char(
        t,
        x0,
        x1,
        '`',
    ) {
        seq![built(kind, t, x0, x1, at, rel(t, lo, start), rel(t, lo, tick + 1))]
    } else {
        Seq::empty()
    }
}

/// The inline hyperlink a backtick opened at `start` and closed at `tick`
/// makes: only when an underscore follows and the text ends in an angle
/// bracketed, one-word, direct target.
pub open spec fn inline_close(
    t: Seq<char>,
    lo: int,
    hi: int,
    at: usize,
    start: int,
    tick: int,
) -> Seq<ReferenceView> {
    if tick + 1 < hi && t[tick + 1] == '_' {
        match rfind(t, start + 1, tick, '<') {
            Some(p) => if p + 1 < tick && t[tick - 1] == '>' {
                let x0 = trim_lo(t, p + 1, tick - 1);
                let x1 = trim_hi(t, p + 1, tick - 1);
                if word(t, x0, x1) && t[x1 - 1] != '_' {
                    seq![
                        built(
                            ReferenceKind::InlineHyperlink,
                            t,
                            x0,
                            x1,
                            at,
                            rel(t, lo, start),
                            rel(t, lo, tick + 2),
                        ),
                    ]
                } else {
                    Seq::empty()
                }
            } else {
                Seq::empty()
            },
            None => Seq::empty(),
        }
    } else {
        Seq::empty()
    }
}

/// One backtick at `tick`, read by each form's own delimiter state.
pub open spec fn tick_step(
    t: Seq<char>,
    lo: int,
    hi: int,
    at: usize,
    tick: int,
    s: Interpreted,
) -> Interpreted {
    let (doc, f1) = match s.doc {
        Some(st) => (None, s.found + role_close(t, lo, at, st, tick, ReferenceKind::DocRole)),
        None => (role_opens(t, lo, tick, doc_opener()), s.found),
    };
    let (rf, f2) = match s.rf {
        Some(st) => (None, f1 + role_close(t, lo, at, st, tick, ReferenceKind::RefRole)),
        None => (role_opens(t, lo, tick, ref_opener()), f1),
    };
    match s.inline {
        Some(st) => Interpreted {
            doc,
            rf,
            inline: None,
            found: f2 + inline_close(t, lo, hi, at, st, tick),
        },
        None => Interpreted { doc, rf, inline: Some(tick), found: f2 },
    }
}

/// The state after every backtick from `k` on.
pub open spec fn interpret_from(
    t: Seq<char>,
    lo: int,
    hi: int,
    at: usize,
    k: int,
    s: Interpreted,
) -> Interpreted
    decreases hi - k,
{
    if k < hi {
        interpret_from(
            t,
            lo,
            hi,
            at,
            k + 1,
            if t[k] == '`' {
                tick_step(t, lo, hi, at, k, s)
            } else {
                s
            },
        )
    } else {
        s
    }
}

/// The Sphinx roles and inline hyperlinks a line's interpreted text makes,
/// in the order their closing backticks come.
pub open spec fn interpreted(t: Seq<char>, lo: int, hi: int, at: usize) -> Seq<ReferenceView> {
    interpret_from(
        t,
        lo,
        hi,
        at,
        lo,
        Interpreted { doc: None, rf: None, inline: None, found: Seq::empty() },
    ).found
}

pub open spec fn ref_span(r: ReferenceView) -> (usize, usize) {
    r.span
}

pub open spec fn sorted_refs(s: Seq<ReferenceView>) -> bool {
    forall|i: int, j: int| 0 <= i < j < s.len() ==> span_le(#[trigger] s[i].span, #[trigger] s[j].span)
}


pub proof fn lemma_views_push(s: Seq<Reference>, r: Reference)
    ensures
        views(s.push(r)) == views(s).push(r@),
{
    assert(views(s.push(r)) =~= views(s).push(r@));
}

fn name_char_at(c: char) -> (b: bool)
    ensures
        b == name_char(c),
{
    ('a' <= c && c <= 'z') || ('A' <= c && c <= 'Z') || ('0' <= c && c <= '9') || c == '_' || c
        == '+' || c == '.' || c == '-' || c == ':'
}

fn role_open_at(t: &[char], lo: usize, tick: usize, opener: &[char]) -> (r: Option<usize>)
    requires
        lo <= tick < t@.len(),
        t@.len() <= usize::MAX,
    ensures
        r matches Some(s) ==> role_opens(t@, lo as int, tick as int, opener@) == Some(s as int)
            && lo <= s && s + 6 == tick + 1,
        r is None ==> role_opens(t@, lo as int, tick as int, opener@) is None,
{
    if tick - lo < 5 {
        return None;
    }
    let start = tick - 5;
    let prefixed = start > lo && name_char_at(t[start - 1]);
    if !prefixed && equals_at(t, start, tick + 1, opener) {
        Some(start)
    } else {
        None
    }
}

fn close_role(
    t: &[char],
    lo: usize,
    at: usize,
    start: usize,
    tick: usize,
    kind: ReferenceKind,
    found: &mut Vec<Reference>,
)
    requires
        lo <= start,
        start + 6 <= tick < t@.len(),
        byte_len(t@) <= usize::MAX,
    ensures
        views(final(found)@) == views(old(found)@) + role_close(
            t@,
            lo as int,
            at,
            start as int,
            tick as int,
            kind,
        ),
{
    proof {
        lemma_len_le_byte_len(t@);
    }
    let b0 = start + 6;
    let (c0, c1) = match rfind_char(t, b0, tick, '<') {
        Some(p) => {
            proof {
                lemma_rfind(t@, b0 as int, tick as int, '<');
            }
            if p + 1 < tick && t[tick - 1] == '>' {
                (p + 1, tick - 1)
            } else {
                (b0, tick)
            }
        },
        None => (b0, tick),
    };
    let (x0, x1) = trim(t, c0, c1);
    let acceptable = x0 < x1 && (matches!(kind, ReferenceKind::RefRole) || !any_space(t, x0, x1))
        && !any_char(t, x0, x1, '`');
    if acceptable {
        let s = bytes_between(t, lo, start);
        let e = bytes_between(t, lo, tick + 1);
        let r = build(kind, t, x0, x1, at, s, e);
        proof {
            lemma_views_push(found@, r);
        }
        found.push(r);
    } else {
        assert(views(found@) =~= views(found@) + Seq::<ReferenceView>::empty());
    }
}

fn close_inline(
    t: &[char],
    lo: usize,
    hi: usize,
    at: usize,
    start: usize,
    tick: usize,
    found: &mut Vec<Reference>,
)
    requires
        lo <= start < tick < hi <= t@.len(),
        byte_len(t@) <= usize::MAX,
    ensures
        views(final(found)@) == views(old(found)@) + inline_close(
            t@,
            lo as int,
            hi as int,
            at,
            start as int,
            tick as int,
        ),
{
    assert(views(found@) =~= views(found@) + Seq::<ReferenceView>::empty());
    if !(tick + 1 < hi && t[tick + 1] == '_') {
        return;
    }
    let p = match rfind_char(t, start + 1, tick, '<') {
        Some(p) => p,
        None => {
            return;
        },
    };
    proof {
        lemma_rfind(t@, start + 1, tick as int, '<');
    }
    if !(p + 1 < tick && t[tick - 1] == '>') {
        return;
    }
    let (x0, x1) = trim(t, p + 1, tick - 1);
    if x0 < x1 && !any_space(t, x0, x1) && t[x1 - 1] != '_' {
        let s = bytes_between(t, lo, start);
        let e = bytes_between(t, lo, tick + 2);
        let r = build(ReferenceKind::InlineHyperlink, t, x0, x1, at, s, e);
        proof {
            lemma_views_push(found@, r);
        }
        found.push(r);
    }
}

/// Reads the two Sphinx roles and inline hyperlinks from one stream of
/// backticks. Each form keeps independent delimiter state because malformed
/// forms may overlap without changing how another form is recognized.
fn interpreted_text(t: &[char], lo: usize, hi: usize, at: usize) -> (found: Vec<Reference>)
    requires
        lo <= hi <= t@.len(),
        byte_len(t@) <= usize::MAX,
    ensures
        views(found@) == interpreted(t@, lo as int, hi as int, at),
{
    let doc_open_chars = [':', 'd', 'o', 'c', ':', '`'];
    let ref_open_chars = [':', 'r', 'e', 'f', ':', '`'];
    assert(doc_open_chars@ == doc_opener());
    assert(ref_open_chars@ == ref_opener());
    let mut found: Vec<Reference> = Vec::new();
    let mut doc: Option<usize> = None;
    let mut rf: Option<usize> = None;
    let mut inline: Option<usize> = None;
    let mut k = lo;
    assert(views(found@) =~= Seq::<ReferenceView>::empty());
    proof {
        lemma_len_le_byte_len(t@);
    }
    while k < hi
        invariant
            lo <= k <= hi <= t@.len(),
            t@.len() <= usize::MAX,
            byte_len(t@) <= usize::MAX,
            doc_open_chars@ == doc_opener(),
            ref_open_chars@ == ref_opener(),
            doc matches Some(s) ==> lo <= s && s + 6 <= k,
            rf matches Some(s) ==> lo <= s && s + 6 <= k,
            inline matches Some(s) ==> lo <= s < k,
            interpret_from(
                t@,
                lo as int,
                hi as int,
                at,
                k as int,
                Interpreted {
                    doc: match doc {
                        Some(s) => Some(s as int),
                        None => None,
                    },
                    rf: match rf {
                        Some(s) => Some(s as int),
                        None => None,
                    },
                    inline: match inline {
                        Some(s) => Some(s as int),
                        None => None,
                    },
                    found: views(found@),
                },
            ).found == interpreted(t@, lo as int, hi as int, at),
        decreases hi - k,
    {
        if t[k] == '`' {
            match doc {
                Some(st) => {
                    close_role(t, lo, at, st, k, ReferenceKind::DocRole, &mut found);
                    doc = None;
                },
                None => {
                    doc = role_open_at(t, lo, k, doc_open_chars.as_slice());
                },
            }
            match rf {
                Some(st) => {
                    close_role(t, lo, at, st, k, ReferenceKind::RefRole, &mut found);
                    rf = None;
                },
                None => {
                    rf = role_open_at(t, lo, k, ref_open_chars.as_slice());
                },
            }
            match inline {
                Some(st) => {
                    close_inline(t, lo, hi, at, st, k, &mut found);
                    inline = None;
                },
                None => {
                    inline = Some(k);
                },
            }
        }
        k = k + 1;
    }
    found
}


fn rfind_colon_space_at(t: &[char], lo: usize, j: usize) -> (r: Option<usize>)
    requires
        lo <= j <= t@.len(),
    ensures
        r matches Some(k) ==> rfind_colon_space(t@, lo as int, j as int) == Some(k as int) && lo
            <= k && k + 2 <= j,
        r is None ==> rfind_colon_space(t@, lo as int, j as int) is None,
{
    let mut e = j;
    while e - lo >= 2
        invariant
            lo <= e <= j <= t@.len(),
            rfind_colon_space(t@, lo as int, e as int) == rfind_colon_space(
                t@,
                lo as int,
                j as int,
            ),
        decreases e,
    {
        if t[e - 2] == ':' && t[e - 1] == ' ' {
            return Some(e - 2);
        }
        e = e - 1;
    }
    None
}

fn named_target(t: &[char], r: usize, hi: usize) -> (w: Option<(usize, usize)>)
    requires
        r <= hi <= t@.len(),
    ensures
        w matches Some(x) ==> named_destination(t@, r as int, hi as int) == Some(
            (x.0 as int, x.1 as int),
        ) && r <= x.0 < x.1 <= hi,
        w is None ==> named_destination(t@, r as int, hi as int) is None,
{
    let underscore = ['_'];
    assert(underscore@ == seq!['_']);
    if !starts_at(t, r, hi, underscore.as_slice()) {
        return None;
    }
    match rfind_colon_space_at(t, r + 1, hi) {
        Some(k) => {
            let (a0, a1) = trim(t, k + 2, hi);
            if a0 < a1 && !any_space(t, a0, a1) && !indirect(t, a0, a1) {
                Some((a0, a1))
            } else {
                None
            }
        },
        None => None,
    }
}

fn file_option(t: &[char], ts: usize, hi: usize) -> (w: Option<(usize, usize)>)
    requires
        ts <= hi <= t@.len(),
    ensures
        w matches Some(x) ==> file_value(t@, ts as int, hi as int) == Some((x.0 as int, x.1 as int))
            && ts <= x.0 < x.1 <= hi,
        w is None ==> file_value(t@, ts as int, hi as int) is None,
{
    let name = [':', 'f', 'i', 'l', 'e', ':'];
    assert(name@ == file_name());
    if !starts_at(t, ts, hi, name.as_slice()) {
        return None;
    }
    let (a0, a1) = trim(t, ts + 6, hi);
    if a0 < a1 && !any_space(t, a0, a1) && t[a0] != '`' {
        Some((a0, a1))
    } else {
        None
    }
}

fn directive_at(t: &[char], r: usize, hi: usize) -> (d: Option<
    (usize, ReferenceKind, Option<TransclusionKind>),
>)
    requires
        r <= hi <= t@.len(),
    ensures
        d matches Some(x) ==> directive_form(t@, r as int, hi as int) == Some(
            (x.0 as int, x.1, x.2),
        ) && r + x.0 <= hi,
        d is None ==> directive_form(t@, r as int, hi as int) is None,
{
    let image = ['i', 'm', 'a', 'g', 'e', ':', ':'];
    let figure = ['f', 'i', 'g', 'u', 'r', 'e', ':', ':'];
    let parsed = ['i', 'n', 'c', 'l', 'u', 'd', 'e', ':', ':'];
    let literal = [
        'l',
        'i',
        't',
        'e',
        'r',
        'a',
        'l',
        'i',
        'n',
        'c',
        'l',
        'u',
        'd',
        'e',
        ':',
        ':',
    ];
    assert(image@ == image_name());
    assert(figure@ == figure_name());
    assert(parsed@ == include_name());
    assert(literal@ == literalinclude_name());
    if starts_at(t, r, hi, image.as_slice()) {
        Some((7, ReferenceKind::Image, None))
    } else if starts_at(t, r, hi, figure.as_slice()) {
        Some((8, ReferenceKind::Image, None))
    } else if starts_at(t, r, hi, parsed.as_slice()) {
        Some((9, ReferenceKind::Include, Some(TransclusionKind::Parsed)))
    } else if starts_at(t, r, hi, literal.as_slice()) {
        Some((16, ReferenceKind::Include, Some(TransclusionKind::Literal)))
    } else {
        None
    }
}

/// A stable insertion sort of references by span.
fn sort_refs(raw: Vec<Reference>) -> (sorted: Vec<Reference>)
    ensures
        views(sorted@) == span_sort(views(raw@), |r: ReferenceView| ref_span(r)),
        views(sorted@).to_multiset() == views(raw@).to_multiset(),
        sorted_refs(views(sorted@)),
{
    broadcast use vstd::seq_lib::group_to_multiset_ensures;

    let ghost rv = views(raw@);
    let mut raw = raw;
    let mut sorted: Vec<Reference> = Vec::new();
    let ghost mut k: int = 0;
    assert(views(raw@) =~= rv.skip(0));
    while raw.len() > 0
        invariant
            0 <= k <= rv.len(),
            views(raw@) == rv.skip(k),
            views(sorted@).to_multiset() == rv.take(k).to_multiset(),
            views(sorted@) == span_sort(rv.take(k), |r: ReferenceView| ref_span(r)),
            sorted_refs(views(sorted@)),
        decreases raw@.len(),
    {
        let ghost before_raw = raw@;
        let b = raw.remove(0);
        proof {
            assert(views(before_raw).len() == before_raw.len());
            assert(views(raw@).len() == raw@.len());
            assert(k < rv.len());
            assert(views(before_raw)[0] == b@);
            assert(rv.skip(k)[0] == rv[k]);
            assert(b@ == rv[k]);
            assert forall|i: int| 0 <= i < views(raw@).len() implies views(raw@)[i] == rv.skip(
                k + 1,
            )[i] by {
                assert(raw@[i] == before_raw[i + 1]);
                assert(views(before_raw)[i + 1] == rv.skip(k)[i + 1]);
            }
            assert(views(raw@) =~= rv.skip(k + 1));
        }
        let bs = b.span;
        let mut p = sorted.len();
        assert(views(sorted@).take(p as int) =~= views(sorted@));
        while p > 0 && !span_before(sorted[p - 1].span, bs)
            invariant
                p <= sorted@.len(),
                bs == b@.span,
                sorted_refs(views(sorted@)),
                insert_pos(views(sorted@).take(p as int), b@, |r: ReferenceView| ref_span(r))
                    == insert_pos(views(sorted@), b@, |r: ReferenceView| ref_span(r)),
                forall|q: int| p <= q < sorted@.len() ==> !span_le(#[trigger] sorted@[q].span, bs),
            decreases p,
        {
            assert(views(sorted@).take(p as int).drop_last() =~= views(sorted@).take(p - 1));
            p = p - 1;
        }
        let ghost before = views(sorted@);
        assert(forall|q: int| p <= q < before.len() ==> !span_le(#[trigger] before[q].span, bs));
        assert(forall|q: int| 0 <= q < p ==> #[trigger] before[q].span == sorted@[q].span);
        sorted.insert(p, b);
        proof {
            assert(views(sorted@) =~= before.insert(p as int, b@));
            vstd::seq_lib::to_multiset_insert(before, p as int, b@);
            assert(rv.take(k + 1) =~= rv.take(k).push(b@));
            assert(rv.take(k + 1).drop_last() =~= rv.take(k));
            vstd::seq_lib::to_multiset_build(rv.take(k), b@);
            let after = views(sorted@);
            assert forall|i: int, j: int| 0 <= i < j < after.len() implies span_le(
                #[trigger] after[i].span,
                #[trigger] after[j].span,
            ) by {
                if j < p {
                    assert(after[i] == before[i] && after[j] == before[j]);
                } else if j == p {
                    assert(span_le(before[i].span, before[p - 1].span) || i == p - 1);
                } else if i == p {
                    assert(after[j] == before[j - 1]);
                    assert(!span_le(before[j - 1].span, bs));
                } else if i < p {
                    assert(after[j] == before[j - 1]);
                    assert(after[i] == before[i]);
                } else {
                    assert(after[j] == before[j - 1]);
                    assert(after[i] == before[i - 1]);
                }
            }
            k = k + 1;
        }
    }
    assert(rv.take(k) =~= rv);
    sorted
}


/// The references of the line `[lo, hi)`, in span order.
pub open spec fn line_refs(t: Seq<char>, lo: int, hi: int, at: usize) -> Seq<ReferenceView> {
    match line_form(t, lo, hi, at) {
        Some(f) => f,
        None => span_sort(interpreted(t, lo, hi, at), |r: ReferenceView| ref_span(r)),
    }
}

/// What the line `[lo, hi)` references: exactly its path directive, named
/// target or `:file:` option when it is one, and otherwise its interpreted
/// text ordered by span.
pub open spec fn line_references_are(
    t: Seq<char>,
    lo: int,
    hi: int,
    at: usize,
    found: Seq<ReferenceView>,
) -> bool {
    match line_form(t, lo, hi, at) {
        Some(f) => found == f,
        None => found == span_sort(interpreted(t, lo, hi, at), |r: ReferenceView| ref_span(r))
            && found.to_multiset() == interpreted(t, lo, hi, at).to_multiset() && sorted_refs(
            found,
        ),
    }
}

/// Reads the references of the line `[lo, hi)` of a document whose bytes
/// start at `at`.
pub(crate) fn line_references(t: &[char], lo: usize, hi: usize, at: usize) -> (found: Vec<
    Reference,
>)
    requires
        lo <= hi <= t@.len(),
        byte_len(t@) <= usize::MAX,
    ensures
        line_references_are(t@, lo as int, hi as int, at, views(found@)),
        views(found@) == line_refs(t@, lo as int, hi as int, at),
{
    let ts = skip_spaces(t, lo, hi);
    let lead = bytes_between(t, lo, ts);
    let len = bytes_between(t, lo, hi);
    let dds = ['.', '.', ' '];
    let star = ['.', '*'];
    assert(dds@ == dot_dot_space());
    assert(star@ == seq!['.', '*']);
    let explicit = starts_at(t, ts, hi, dds.as_slice());
    if explicit {
        let r = ts + 3;
        let after = bytes_between(t, lo, r);
        if let Some((n, kind, tr)) = directive_at(t, r, hi) {
            let (a0, a1) = trim(t, r + n, hi);
            let mut found: Vec<Reference> = Vec::new();
            if a0 < a1 && !any_space(t, a0, a1) && !ends_at(t, a0, a1, star.as_slice()) {
                let mut reference = build(kind, t, a0, a1, at, after, len);
                reference.transclusion = match tr {
                    Some(k) => Some(Ok(k)),
                    None => None,
                };
                found.push(reference);
                assert(views(found@) =~= seq![found@[0]@]);
            } else {
                assert(views(found@) =~= Seq::<ReferenceView>::empty());
            }
            return found;
        }
        if let Some((a0, a1)) = named_target(t, r, hi) {
            let mut found: Vec<Reference> = Vec::new();
            found.push(build(ReferenceKind::NamedTarget, t, a0, a1, at, after, len));
            assert(views(found@) =~= seq![found@[0]@]);
            return found;
        }
    }
    if let Some((a0, a1)) = file_option(t, ts, hi) {
        let mut found: Vec<Reference> = Vec::new();
        found.push(build(ReferenceKind::FileOption, t, a0, a1, at, lead, len));
        assert(views(found@) =~= seq![found@[0]@]);
        return found;
    }
    sort_refs(interpreted_text(t, lo, hi, at))
}

/// Reads one line's references. `at` is the line's byte offset in the
/// document.
pub fn references(line: &str, at: usize) -> (found: Vec<Reference>)
    ensures
        line_references_are(line@, 0, line@.len() as int, at, views(found@)),
{
    let t = chars_of(line);
    line_references(t.as_slice(), 0, t.len(), at)
}


/// The entry one line `[a, e)` of a `toctree` body names: a document, or the
/// target of a `Title <target>` entry, one word; option lines name none.
pub open spec fn toctree_target(t: Seq<char>, a: int, e: int, at: usize) -> Option<ReferenceView> {
    let ts = skip_space(t, a, e);
    let te = back_space(t, ts, e);
    if ts < te && t[ts] != ':' {
        let (x0, x1) = role_window(t, ts, te);
        if word(t, x0, x1) {
            Some(built(ReferenceKind::TocTreeEntry, t, x0, x1, at, rel(t, a, ts), rel(t, a, te)))
        } else {
            None
        }
    } else {
        None
    }
}

pub(crate) fn toctree_entry(t: &[char], a: usize, e: usize, at: usize) -> (r: Option<Reference>)
    requires
        a <= e <= t@.len(),
        byte_len(t@) <= usize::MAX,
    ensures
        match r {
            Some(x) => toctree_target(t@, a as int, e as int, at) == Some(x@),
            None => toctree_target(t@, a as int, e as int, at) is None,
        },
{
    let ts = skip_spaces(t, a, e);
    let te = back_spaces(t, ts, e);
    if !(ts < te && t[ts] != ':') {
        return None;
    }
    let (c0, c1) = match rfind_char(t, ts, te, '<') {
        Some(p) => {
            proof {
                lemma_rfind(t@, ts as int, te as int, '<');
            }
            if p + 1 < te && t[te - 1] == '>' {
                (p + 1, te - 1)
            } else {
                (ts, te)
            }
        },
        None => (ts, te),
    };
    let (x0, x1) = trim(t, c0, c1);
    if x0 < x1 && !any_space(t, x0, x1) {
        let s = bytes_between(t, a, ts);
        let f = bytes_between(t, a, te);
        Some(build(ReferenceKind::TocTreeEntry, t, x0, x1, at, s, f))
    } else {
        None
    }
}

} // verus!
