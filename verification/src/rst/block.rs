//! The block structure of a reStructuredText document. Indentation is the
//! whole structure: an explicit markup line opens a block that runs until the
//! indent returns, and a paragraph ending in `::` opens a literal block the
//! same way.

use vstd::prelude::*;

use crate::text::{
    chars_of, find_char,
    advance, back_space, blank, byte_len, ends, ends_at, equals, equals_at, find, indent,
    lemma_find, lemma_offset_monotone, lemma_skip_space, occurs, occurs_in, offset, skip_space,
    skip_spaces, starts, starts_at,
};

verus! {

/// What a block holds. `Literal` is an indented literal block opened by `::`,
/// whose content is code. `Comment` is an explicit markup block this parser
/// declines to read into. `Directive` holds a directive's argument and options.
#[derive(Clone, Copy, Debug, PartialEq, Eq, Structural)]
pub enum Kind {
    Text,
    Literal,
    Comment,
    Directive,
}

/// One block of a document: its byte span, what it holds, and the indent that
/// opened it, which is the only nesting reStructuredText has.
#[derive(Clone, Copy, Debug, PartialEq, Eq)]
pub struct Block {
    pub span: (usize, usize),
    pub kind: Kind,
    pub indent: usize,
}

/// The state one pass over the lines carries: the blocks closed so far, the
/// explicit or literal block still open (its start, kind and opening indent),
/// whether the last paragraph line ended in `::`, and the paragraph being read
/// (its start and indent).
pub struct BlockScan {
    pub found: Seq<Block>,
    pub open: Option<(usize, Kind, usize)>,
    pub pending: bool,
    pub paragraph: Option<(usize, usize)>,
}

/// The index of the `\n` that ends the line starting at `i`, or the end.
pub open spec fn line_end(t: Seq<char>, i: int) -> int {
    find(t, i, t.len() as int, '\n')
}

/// The index the line after the one starting at `i` starts at.
pub open spec fn next_line(t: Seq<char>, i: int) -> int {
    if line_end(t, i) < t.len() {
        line_end(t, i) + 1
    } else {
        t.len() as int
    }
}

pub proof fn lemma_next_line(t: Seq<char>, i: int)
    requires
        0 <= i < t.len(),
    ensures
        i <= line_end(t, i) <= t.len(),
        i < next_line(t, i) <= t.len(),
        forall|k: int| i <= k < line_end(t, i) ==> t[k] != '\n',
{
    lemma_find(t, i, t.len() as int, '\n');
}

/// The paragraph being read, closed at `end` when it holds anything.
pub open spec fn flushed(found: Seq<Block>, paragraph: Option<(usize, usize)>, end: usize) -> Seq<
    Block,
> {
    match paragraph {
        Some((start, indent)) => if end > start {
            found.push(Block { span: (start, end), kind: Kind::Text, indent })
        } else {
            found
        },
        None => found,
    }
}

/// What an explicit markup line opens, read from what follows its `.. `: a
/// target, or a directive marked by `::`, or otherwise a comment.
pub open spec fn opener_kind(t: Seq<char>, r: int, e: int) -> Kind {
    if starts(t, r, e, seq!['_']) || occurs(t, r, e, seq![':', ':', ' ']) || ends(
        t,
        r,
        e,
        seq![':', ':'],
    ) {
        Kind::Directive
    } else {
        Kind::Comment
    }
}

/// One line `[ls, le)` starting at byte `start`, read into the state.
pub open spec fn block_step(t: Seq<char>, ls: int, le: int, start: usize, s: BlockScan) -> BlockScan {
    let ind = indent(t, ls, le) as usize;
    let is_blank = blank(t, ls, le);
    let found = if is_blank {
        flushed(s.found, s.paragraph, start)
    } else {
        s.found
    };
    let paragraph = if is_blank {
        None
    } else {
        s.paragraph
    };
    let keeps_open = match s.open {
        Some((_, _, opened)) => is_blank || ind > opened,
        None => false,
    };
    if keeps_open {
        BlockScan { found, open: s.open, pending: s.pending, paragraph }
    } else {
        let found = match s.open {
            Some((body, kind, opened)) => found.push(
                Block { span: (body, start), kind, indent: opened },
            ),
            None => found,
        };
        if is_blank {
            BlockScan { found, open: None, pending: s.pending, paragraph }
        } else if s.pending && ind > 0 {
            BlockScan { found, open: Some((start, Kind::Literal, 0)), pending: false, paragraph }
        } else {
            let ts = skip_space(t, ls, le);
            let dots = starts(t, ts, le, seq!['.', '.']);
            let found = if dots {
                flushed(found, paragraph, start)
            } else {
                found
            };
            let paragraph = if dots {
                None
            } else {
                paragraph
            };
            if starts(t, ts, le, seq!['.', '.', ' ']) {
                BlockScan {
                    found,
                    open: Some((start, opener_kind(t, ts + 3, le), ind)),
                    pending: false,
                    paragraph,
                }
            } else if equals(t, ts, le, seq!['.', '.']) {
                BlockScan { found, open: Some((start, Kind::Comment, ind)), pending: false, paragraph }
            } else {
                BlockScan {
                    found,
                    open: None,
                    pending: ends(t, ts, le, seq![':', ':']),
                    paragraph: if paragraph is None {
                        Some((start, ind))
                    } else {
                        paragraph
                    },
                }
            }
        }
    }
}

/// The state after reading every line from the one starting at `i`.
pub open spec fn scan_blocks(t: Seq<char>, i: int, s: BlockScan) -> BlockScan
    decreases t.len() - i,
{
    if 0 <= i < t.len() {
        proof {
            lemma_next_line(t, i);
        }
        scan_blocks(t, next_line(t, i), block_step(t, i, line_end(t, i), offset(t, i) as usize, s))
    } else {
        s
    }
}

/// The blocks of a document in the order the scan closes them.
pub open spec fn scanned_blocks(t: Seq<char>) -> Seq<Block> {
    let s = scan_blocks(
        t,
        0,
        BlockScan { found: Seq::empty(), open: None, pending: false, paragraph: None },
    );
    let total = byte_len(t) as usize;
    let found = flushed(s.found, s.paragraph, total);
    match s.open {
        Some((body, kind, opened)) => found.push(Block { span: (body, total), kind, indent: opened }),
        None => found,
    }
}

/// Span order: by start, then by end.
pub open spec fn span_le(a: (usize, usize), b: (usize, usize)) -> bool {
    a.0 < b.0 || (a.0 == b.0 && a.1 <= b.1)
}

/// Where a stable insertion by span puts `b` into `s`: after every element
/// whose span does not come after its own.
pub open spec fn insert_pos<T>(s: Seq<T>, b: T, key: spec_fn(T) -> (usize, usize)) -> int
    decreases s.len(),
{
    if s.len() > 0 && !span_le(key(s.last()), key(b)) {
        insert_pos(s.drop_last(), b, key)
    } else {
        s.len() as int
    }
}

/// The stable sort by span: each element inserted, in order, after those
/// that do not come after it.
pub open spec fn span_sort<T>(s: Seq<T>, key: spec_fn(T) -> (usize, usize)) -> Seq<T>
    decreases s.len(),
{
    if s.len() == 0 {
        s
    } else {
        let r = span_sort(s.drop_last(), key);
        r.insert(insert_pos(r, s.last(), key), s.last())
    }
}

pub proof fn lemma_insert_pos<T>(s: Seq<T>, b: T, key: spec_fn(T) -> (usize, usize))
    ensures
        0 <= insert_pos(s, b, key) <= s.len(),
    decreases s.len(),
{
    if s.len() > 0 && !span_le(key(s.last()), key(b)) {
        lemma_insert_pos(s.drop_last(), b, key);
    }
}

pub proof fn lemma_span_sort_len<T>(s: Seq<T>, key: spec_fn(T) -> (usize, usize))
    ensures
        span_sort(s, key).len() == s.len(),
    decreases s.len(),
{
    if s.len() > 0 {
        lemma_span_sort_len(s.drop_last(), key);
        lemma_insert_pos(span_sort(s.drop_last(), key), s.last(), key);
    }
}

pub open spec fn block_span(b: Block) -> (usize, usize) {
    b.span
}

pub open spec fn sorted_by_span(s: Seq<Block>) -> bool {
    forall|i: int, j: int| 0 <= i < j < s.len() ==> span_le(#[trigger] s[i].span, #[trigger] s[j].span)
}

/// Closes the paragraph being read at `end`, when it holds anything.
fn flush(found: &mut Vec<Block>, paragraph: &mut Option<(usize, usize)>, end: usize)
    ensures
        final(found)@ == flushed(old(found)@, *old(paragraph), end),
        *final(paragraph) == None::<(usize, usize)>,
{
    if let Some((start, indent)) = paragraph.take() {
        if end > start {
            found.push(Block { span: (start, end), kind: Kind::Text, indent });
        }
    }
}

/// Reads one line into the scan state.
fn read_line(
    t: &[char],
    ls: usize,
    le: usize,
    start: usize,
    found: &mut Vec<Block>,
    open: &mut Option<(usize, Kind, usize)>,
    pending: &mut bool,
    paragraph: &mut Option<(usize, usize)>,
)
    requires
        ls <= le <= t@.len(),
        byte_len(t@) <= usize::MAX,
    ensures
        ({
            let s = block_step(
                t@,
                ls as int,
                le as int,
                start,
                BlockScan {
                    found: old(found)@,
                    open: *old(open),
                    pending: *old(pending),
                    paragraph: *old(paragraph),
                },
            );
            &&& final(found)@ == s.found
            &&& *final(open) == s.open
            &&& *final(pending) == s.pending
            &&& *final(paragraph) == s.paragraph
        }),
{
    let ts = skip_spaces(t, ls, le);
    proof {
        lemma_skip_space(t@, ls as int, le as int);
        lemma_offset_monotone(t@, ls as int, ts as int);
        lemma_offset_monotone(t@, ts as int, t@.len() as int);
        assert(t@.take(t@.len() as int) =~= t@);
    }
    let ol = advance(t, 0, ls, 0);
    let ot = advance(t, ls, ts, ol);
    let ind = ot - ol;
    let is_blank = ts >= le;
    if is_blank {
        flush(found, paragraph, start);
    }
    if let Some((body, kind, opened)) = *open {
        if is_blank || ind > opened {
            return;
        }
        found.push(Block { span: (body, start), kind, indent: opened });
        *open = None;
    }
    if is_blank {
        return;
    }
    if *pending && ind > 0 {
        *open = Some((start, Kind::Literal, 0));
        *pending = false;
        return;
    }
    *pending = false;
    let dots = ['.', '.'];
    let dots_space = ['.', '.', ' '];
    assert(dots@ == seq!['.', '.']);
    assert(dots_space@ == seq!['.', '.', ' ']);
    if starts_at(t, ts, le, dots.as_slice()) {
        flush(found, paragraph, start);
    }
    if starts_at(t, ts, le, dots_space.as_slice()) {
        let r = ts + 3;
        let underscore = ['_'];
        let marker = [':', ':', ' '];
        let closing = [':', ':'];
        assert(underscore@ == seq!['_']);
        assert(marker@ == seq![':', ':', ' ']);
        assert(closing@ == seq![':', ':']);
        let kind = if starts_at(t, r, le, underscore.as_slice()) || occurs_in(
            t,
            r,
            le,
            marker.as_slice(),
        ) || ends_at(t, r, le, closing.as_slice()) {
            Kind::Directive
        } else {
            Kind::Comment
        };
        *open = Some((start, kind, ind));
        return;
    }
    if equals_at(t, ts, le, dots.as_slice()) {
        *open = Some((start, Kind::Comment, ind));
        return;
    }
    let closing = [':', ':'];
    assert(closing@ == seq![':', ':']);
    if ends_at(t, ts, le, closing.as_slice()) {
        *pending = true;
    }
    if paragraph.is_none() {
        *paragraph = Some((start, ind));
    }
}


pub open spec fn no_scan() -> BlockScan {
    BlockScan { found: Seq::empty(), open: None, pending: false, paragraph: None }
}

/// The blocks of a document, in the order the scan closes them.
fn scan(t: &[char]) -> (found: Vec<Block>)
    requires
        byte_len(t@) <= usize::MAX,
    ensures
        found@ == scanned_blocks(t@),
{
    let n = t.len();
    let mut found: Vec<Block> = Vec::new();
    let mut open: Option<(usize, Kind, usize)> = None;
    let mut pending = false;
    let mut paragraph: Option<(usize, usize)> = None;
    let mut i: usize = 0;
    let mut oi: usize = 0;
    assert(t@.take(0) =~= Seq::<char>::empty());
    while i < n
        invariant
            i <= n == t@.len(),
            oi == offset(t@, i as int),
            byte_len(t@) <= usize::MAX,
            scan_blocks(
                t@,
                i as int,
                BlockScan { found: found@, open, pending, paragraph },
            ) == scan_blocks(t@, 0, no_scan()),
        decreases n - i,
    {
        let le = find_char(t, i, n, '\n');
        let nx = if le < n {
            le + 1
        } else {
            n
        };
        proof {
            lemma_next_line(t@, i as int);
        }
        read_line(t, i, le, oi, &mut found, &mut open, &mut pending, &mut paragraph);
        oi = advance(t, i, nx, oi);
        i = nx;
    }
    let total = advance(t, i, n, oi);
    assert(t@.take(n as int) =~= t@);
    flush(&mut found, &mut paragraph, total);
    if let Some((body, kind, opened)) = open {
        found.push(Block { span: (body, total), kind, indent: opened });
    }
    found
}

/// Span order, computed.
pub(crate) fn span_before(a: (usize, usize), b: (usize, usize)) -> (r: bool)
    ensures
        r == span_le(a, b),
{
    a.0 < b.0 || (a.0 == b.0 && a.1 <= b.1)
}

/// A stable insertion sort by span.
fn sort_by_span(raw: Vec<Block>) -> (sorted: Vec<Block>)
    ensures
        sorted@ == span_sort(raw@, |b: Block| block_span(b)),
        sorted@.to_multiset() == raw@.to_multiset(),
        sorted_by_span(sorted@),
{
    broadcast use vstd::seq_lib::group_to_multiset_ensures;

    let mut sorted: Vec<Block> = Vec::new();
    let mut k: usize = 0;
    while k < raw.len()
        invariant
            k <= raw@.len(),
            sorted@.to_multiset() == raw@.take(k as int).to_multiset(),
            sorted@ == span_sort(raw@.take(k as int), |b: Block| block_span(b)),
            sorted_by_span(sorted@),
        decreases raw@.len() - k,
    {
        let b = raw[k];
        let mut p = sorted.len();
        assert(sorted@.take(p as int) =~= sorted@);
        while p > 0 && !span_before(sorted[p - 1].span, b.span)
            invariant
                p <= sorted@.len(),
                sorted_by_span(sorted@),
                insert_pos(sorted@.take(p as int), b, |b: Block| block_span(b)) == insert_pos(
                    sorted@,
                    b,
                    |b: Block| block_span(b),
                ),
                forall|q: int| p <= q < sorted@.len() ==> !span_le(#[trigger] sorted@[q].span, b.span),
            decreases p,
        {
            assert(sorted@.take(p as int).drop_last() =~= sorted@.take(p - 1));
            p = p - 1;
        }
        let ghost before = sorted@;
        sorted.insert(p, b);
        proof {
            assert(raw@.take(k + 1).drop_last() =~= raw@.take(k as int));
            assert(raw@.take(k + 1).last() == b);
            vstd::seq_lib::to_multiset_insert(before, p as int, b);
            assert(sorted@ == before.insert(p as int, b));
            assert(raw@.take(k + 1) =~= raw@.take(k as int).push(b));
            vstd::seq_lib::to_multiset_build(raw@.take(k as int), b);
            assert forall|i: int, j: int| 0 <= i < j < sorted@.len() implies span_le(
                #[trigger] sorted@[i].span,
                #[trigger] sorted@[j].span,
            ) by {
                if j < p {
                    assert(sorted@[i] == before[i] && sorted@[j] == before[j]);
                } else if j == p {
                    assert(span_le(before[i].span, before[p - 1].span) || i == p - 1);
                } else if i == p {
                    assert(sorted@[j] == before[j - 1]);
                } else if i < p {
                    assert(sorted@[j] == before[j - 1]);
                    assert(sorted@[i] == before[i]);
                } else {
                    assert(sorted@[j] == before[j - 1]);
                    assert(sorted@[i] == before[i - 1]);
                }
            }
        }
        k = k + 1;
    }
    assert(raw@.take(raw@.len() as int) =~= raw@);
    sorted
}

/// Splits a document into blocks: its paragraphs, the explicit markup blocks
/// and the literal blocks, ordered by span.
pub fn blocks(text: &str) -> (found: Vec<Block>)
    ensures
        found@ == span_sort(scanned_blocks(text@), |b: Block| block_span(b)),
        found@.to_multiset() == scanned_blocks(text@).to_multiset(),
        sorted_by_span(found@),
{
    let t = chars_of(text);
    blocks_of(t.as_slice())
}

/// The blocks of a document held as characters, ordered by span.
pub(crate) fn blocks_of(t: &[char]) -> (found: Vec<Block>)
    requires
        byte_len(t@) <= usize::MAX,
    ensures
        found@ == span_sort(scanned_blocks(t@), |b: Block| block_span(b)),
        found@.to_multiset() == scanned_blocks(t@).to_multiset(),
        sorted_by_span(found@),
{
    let raw = scan(t);
    sort_by_span(raw)
}

} // verus!
