//! One reStructuredText document read whole: its blocks, then each block's
//! lines, into references, titles, declared labels, governed carriers and the
//! spans this reader cannot see into.

use vstd::prelude::*;

use crate::rst::block::{
    blocks_of, block_span, span_sort, scanned_blocks, Block, Kind,
};
use crate::rst::directive::{
    bytes_between, lemma_trim, line_references, line_refs, rel, toctree_entry, toctree_target,
    trim_hi, trim_lo, underline, underline_of,
};
use crate::rst::read::{
    declare, declare_step, directive_name, directive_name_at, has_body, has_body_at,
    include_selection, literal_opener, literal_opener_at, named, named_at, selection,
    string_views, title_level, title_level_of, wrapped, wrapped_end, Glossary,
};
use crate::rst::{
    views, GovernedCarrier, Reference, ReferenceView, Title, TransclusionRefusal,
};
use crate::text::{
    back_spaces, blank, byte_len, find, find_char, indent, lemma_find, lemma_len_le_byte_len,
    lemma_offset_monotone, lemma_skip_space, offset, skip_space, skip_spaces, starts, starts_at,
    text_of, copy_range, chars_of, char_index, char_index_of, has_char, utf8_text, any_char,
};
use crate::rst::read::{raw_directive, raw_directive_at, opens_literal_include, opens_literal_include_at};
use crate::rst::{Extraction, Refusal};
use vstd::utf8::{decode_utf8, valid_utf8};

verus! {

/// A title with its text read as characters.
pub struct TitleView {
    pub level: usize,
    pub text: Seq<char>,
    pub span: (usize, usize),
}

impl View for Title {
    type V = TitleView;

    open spec fn view(&self) -> TitleView {
        TitleView { level: self.level, text: self.text@, span: self.span }
    }
}

pub open spec fn title_views(s: Seq<Title>) -> Seq<TitleView> {
    s.map_values(|x: Title| x@)
}

/// What one block is read with: its body window in the document, its index
/// and block, whether its lines can be titles, whether a directive carries
/// lines after its first, and whether it opens a `literalinclude`.
pub struct BlockContext {
    pub lo: int,
    pub hi: int,
    pub index: usize,
    pub block: Block,
    pub titled: bool,
    pub dir_body: bool,
    pub lit_inc: bool,
}

/// What reading a block's lines carries from one line to the next, beside
/// what the document has gathered: the candidate title line (its window and
/// byte offset in the body), the literal body being skipped (its indent and
/// whether option lines still count), the `toctree` body being read, the
/// glossary body, and how far wrapped inline markup has already been read.
pub struct ReadState {
    pub references: Seq<ReferenceView>,
    pub titles: Seq<TitleView>,
    pub anchors: Seq<Seq<char>>,
    pub order: Seq<char>,
    pub previous: Option<(int, int, usize)>,
    pub literal: Option<(usize, bool)>,
    pub toctree: Option<usize>,
    pub glossary: Glossary,
    pub read_until: int,
}

/// A reference read in a block: placed in it, and a transclusion refused when
/// it sits inside other content or carries options.
pub open spec fn placed(r: ReferenceView, c: BlockContext) -> ReferenceView {
    ReferenceView {
        block: c.index,
        block_span: c.block.span,
        transclusion: match r.transclusion {
            Some(m) => Some(
                if c.block.indent != 0 {
                    Err(TransclusionRefusal::Context)
                } else if c.dir_body {
                    Err(TransclusionRefusal::Options)
                } else {
                    m
                },
            ),
            None => None,
        },
        ..r
    }
}

/// The titles, title order and candidate line after the line `[ls, le)`,
/// whose raw line ends at `nx`.
pub open spec fn title_step(
    t: Seq<char>,
    c: BlockContext,
    ls: int,
    le: int,
    nx: int,
    s: ReadState,
) -> (Seq<TitleView>, Seq<char>, Option<(int, int, usize)>) {
    if !c.titled {
        (s.titles, s.order, s.previous)
    } else {
        let found = match s.previous {
            Some((ps, pe, pstart)) => match underline(t.subrange(ls, le), t.subrange(ps, pe)) {
                Some(ch) => Some((ps, pe, pstart, ch)),
                None => None,
            },
            None => None,
        };
        match found {
            Some((ps, pe, pstart, ch)) => {
                let (level, order) = title_level(s.order, ch);
                let title = TitleView {
                    level,
                    text: t.subrange(trim_lo(t, ps, pe), trim_hi(t, ps, pe)),
                    span: (
                        c.block.span.0.saturating_add(pstart),
                        c.block.span.0.saturating_add(rel(t, c.lo, nx)),
                    ),
                };
                (s.titles.push(title), order, None)
            },
            None => (
                s.titles,
                s.order,
                if !blank(t, ls, le) {
                    Some((ls, le, rel(t, c.lo, ls)))
                } else {
                    None
                },
            ),
        }
    }
}

/// The references after a `literalinclude` option on the line `[ls, le)`
/// selects part of the file the block's reference names.
pub open spec fn selected(
    t: Seq<char>,
    c: BlockContext,
    ls: int,
    le: int,
    refs: Seq<ReferenceView>,
) -> Seq<ReferenceView> {
    match selection(t, ls, le) {
        Some(sel) => if c.lit_inc && refs.len() > 0 && refs.last().block == c.index {
            refs.update(refs.len() - 1, ReferenceView { selection: Some(sel), ..refs.last() })
        } else {
            refs
        },
        None => refs,
    }
}

/// Everything a line `[ls, le)` that is neither literal content nor a
/// `toctree` entry adds: a title, declared names, references from the text
/// its inline markup reads, a selection, and the literal or `toctree` body it
/// opens.
pub open spec fn rest_step(
    t: Seq<char>,
    c: BlockContext,
    ls: int,
    le: int,
    nx: int,
    s: ReadState,
) -> ReadState {
    let at = c.block.span.0.saturating_add(rel(t, c.lo, ls));
    let ind = indent(t, ls, le) as usize;
    let (titles, order, previous) = title_step(t, c, ls, le, nx, s);
    let (names, glossary) = declare_step(
        t,
        ls,
        le,
        ind,
        c.block.kind == Kind::Directive,
        s.glossary,
    );
    let (chunk_end, read_until) = if ls >= s.read_until {
        let end = wrapped_end(t, ls, le, c.hi);
        (end, end)
    } else {
        (ls, s.read_until)
    };
    let refs = selected(t, c, ls, le, s.references) + line_refs(t, ls, chunk_end, at).map_values(
        |r: ReferenceView| placed(r, c),
    );
    let literal = match s.literal {
        Some(l) => Some(l),
        None => match literal_opener(t, ls, le) {
            Some(o) => Some((ind, o)),
            None => None,
        },
    };
    let toctree = if named(t, directive_name(t, skip_space(t, ls, le), le), "toctree"@) {
        Some(ind)
    } else {
        None
    };
    ReadState {
        references: refs,
        titles,
        anchors: s.anchors + names,
        order,
        previous,
        literal,
        toctree,
        glossary,
        read_until,
    }
}

/// One line `[ls, le)`, whose raw line ends at `nx`, read into the state.
pub open spec fn read_step(
    t: Seq<char>,
    c: BlockContext,
    ls: int,
    le: int,
    nx: int,
    s: ReadState,
) -> ReadState {
    let at = c.block.span.0.saturating_add(rel(t, c.lo, ls));
    let ind = indent(t, ls, le) as usize;
    let bl = blank(t, ls, le);
    let (literal, skip) = match s.literal {
        Some((opened, options)) => if bl || ind > opened {
            let option = options && !bl && starts(t, skip_space(t, ls, le), le, seq![':']);
            (Some((opened, option)), !option)
        } else {
            (None, false)
        },
        None => (None, false),
    };
    if skip {
        ReadState { literal, ..s }
    } else {
        let entry = match s.toctree {
            Some(opened) => bl || ind > opened,
            None => false,
        };
        if entry {
            let refs = match toctree_target(t, ls, le, at) {
                Some(r) => s.references.push(
                    ReferenceView { block: c.index, block_span: c.block.span, ..r },
                ),
                None => s.references,
            };
            ReadState { literal, references: refs, ..s }
        } else {
            rest_step(t, c, ls, le, nx, ReadState { literal, toctree: None, ..s })
        }
    }
}

/// The state after every line of the body from the one starting at `i`.
pub open spec fn read_lines(t: Seq<char>, c: BlockContext, i: int, s: ReadState) -> ReadState
    decreases c.hi - i,
{
    if i < c.hi {
        let e = find(t, i, c.hi, '\n');
        let nx = if e < c.hi {
            e + 1
        } else {
            c.hi
        };
        if i < nx {
            read_lines(t, c, nx, read_step(t, c, i, e, nx, s))
        } else {
            s
        }
    } else {
        s
    }
}


/// The state reading a block carries, held.
pub struct Reader {
    pub references: Vec<Reference>,
    pub titles: Vec<Title>,
    pub anchors: Vec<String>,
    pub order: Vec<char>,
    pub previous: Option<(usize, usize, usize)>,
    pub literal: Option<(usize, bool)>,
    pub toctree: Option<usize>,
    pub glossary: Glossary,
    pub read_until: usize,
}

impl View for Reader {
    type V = ReadState;

    open spec fn view(&self) -> ReadState {
        ReadState {
            references: views(self.references@),
            titles: title_views(self.titles@),
            anchors: string_views(self.anchors@),
            order: self.order@,
            previous: match self.previous {
                Some((a, b, c)) => Some((a as int, b as int, c)),
                None => None,
            },
            literal: self.literal,
            toctree: self.toctree,
            glossary: self.glossary,
            read_until: self.read_until as int,
        }
    }
}

impl Reader {
    /// What every reader state keeps: distinct title characters and a
    /// candidate title line inside the document.
    pub open spec fn fits(&self, n: int) -> bool {
        &&& self.order@.no_duplicates()
        &&& self.read_until <= n
        &&& self.previous matches Some((a, b, _)) ==> a <= b <= n
    }
}

pub proof fn lemma_title_views_push(s: Seq<Title>, x: Title)
    ensures
        title_views(s.push(x)) == title_views(s).push(x@),
{
    assert(title_views(s.push(x)) =~= title_views(s).push(x@));
}

fn place(r: &mut Reference, index: usize, block: Block, dir_body: bool, Ghost(c): Ghost<BlockContext>)
    requires
        c.index == index,
        c.block == block,
        c.dir_body == dir_body,
    ensures
        final(r)@ == placed(old(r)@, c),
{
    r.block = index;
    r.block_span = block.span;
    if let Some(mode) = r.transclusion {
        r.transclusion = Some(
            if block.indent != 0 {
                Err(TransclusionRefusal::Context)
            } else if dir_body {
                Err(TransclusionRefusal::Options)
            } else {
                mode
            },
        );
    }
}

/// The title a line completes, or the candidate it leaves.
fn title_part(
    t: &[char],
    lo: usize,
    block: Block,
    ls: usize,
    le: usize,
    nx: usize,
    r: &mut Reader,
    Ghost(c): Ghost<BlockContext>,
)
    requires
        lo <= ls <= le <= nx <= t@.len(),
        byte_len(t@) <= usize::MAX,
        old(r).fits(t@.len() as int),
        c.lo == lo,
        c.block == block,
        c.titled,
    ensures
        (final(r)@.titles, final(r)@.order, final(r)@.previous) == title_step(
            t@,
            c,
            ls as int,
            le as int,
            nx as int,
            old(r)@,
        ),
        final(r).references == old(r).references,
        final(r).anchors == old(r).anchors,
        final(r).literal == old(r).literal,
        final(r).toctree == old(r).toctree,
        final(r).glossary == old(r).glossary,
        final(r).read_until == old(r).read_until,
        final(r).fits(t@.len() as int),
{
    if let Some((ps, pe, pstart)) = r.previous {
        let lv = copy_range(t, ls, le);
        let pv = copy_range(t, ps, pe);
        if let Some(ch) = underline_of(lv.as_slice(), pv.as_slice()) {
            let level = title_level_of(&mut r.order, ch);
            proof {
                lemma_trim(t@, ps as int, pe as int);
            }
            let x0 = skip_spaces(t, ps, pe);
            let x1 = back_spaces(t, x0, pe);
            let text = text_of(t, x0, x1);
            let end = bytes_between(t, lo, nx);
            let title = Title {
                level,
                text,
                span: (block.span.0.saturating_add(pstart), block.span.0.saturating_add(end)),
            };
            proof {
                lemma_title_views_push(r.titles@, title);
            }
            r.titles.push(title);
            r.previous = None;
            return;
        }
    }
    let ts = skip_spaces(t, ls, le);
    r.previous = if ts < le {
        Some((ls, le, bytes_between(t, lo, ls)))
    } else {
        None
    };
}

/// The selection a `literalinclude` option line adds to the block's
/// reference.
fn selection_part(
    t: &[char],
    index: usize,
    lit_inc: bool,
    ls: usize,
    le: usize,
    references: &mut Vec<Reference>,
    Ghost(c): Ghost<BlockContext>,
)
    requires
        ls <= le <= t@.len(),
        c.index == index,
        c.lit_inc == lit_inc,
    ensures
        views(final(references)@) == selected(
            t@,
            c,
            ls as int,
            le as int,
            views(old(references)@),
        ),
{
    let sel = include_selection(t, ls, le);
    if !lit_inc {
        return;
    }
    if let Some(sel) = sel {
        let n = references.len();
        if n > 0 && references[n - 1].block == index {
            let ghost before = references@;
            let mut last = references.pop().unwrap();
            last.selection = Some(sel);
            references.push(last);
            proof {
                assert(views(references@) =~= views(before).update(
                    n - 1,
                    ReferenceView { selection: Some(sel@), ..views(before).last() },
                ));
            }
        }
    }
}

/// Appends a line's references, each placed in the block.
fn push_placed(
    references: &mut Vec<Reference>,
    found: Vec<Reference>,
    index: usize,
    block: Block,
    dir_body: bool,
    Ghost(c): Ghost<BlockContext>,
)
    requires
        c.index == index,
        c.block == block,
        c.dir_body == dir_body,
    ensures
        views(final(references)@) == views(old(references)@) + views(found@).map_values(
            |x: ReferenceView| placed(x, c),
        ),
{
    let ghost lr = views(found@);
    let ghost start = views(references@);
    let mut found = found;
    let ghost mut k: int = 0;
    assert(views(found@) =~= lr.skip(0));
    assert(views(references@) =~= start + lr.take(0).map_values(|x: ReferenceView| placed(x, c)));
    while found.len() > 0
        invariant
            0 <= k <= lr.len(),
            views(found@) == lr.skip(k),
            views(references@) == start + lr.take(k).map_values(|x: ReferenceView| placed(x, c)),
            c.index == index,
            c.block == block,
            c.dir_body == dir_body,
        decreases found@.len(),
    {
        let ghost before_found = found@;
        let mut x = found.remove(0);
        proof {
            assert(views(before_found).len() == before_found.len());
            assert(views(found@).len() == found@.len());
            assert(views(before_found)[0] == x@);
            assert(lr.skip(k)[0] == lr[k]);
            assert forall|i: int| 0 <= i < views(found@).len() implies views(found@)[i] == lr.skip(
                k + 1,
            )[i] by {
                assert(found@[i] == before_found[i + 1]);
                assert(views(before_found)[i + 1] == lr.skip(k)[i + 1]);
            }
            assert(views(found@) =~= lr.skip(k + 1));
        }
        place(&mut x, index, block, dir_body, Ghost(c));
        proof {
            crate::rst::directive::lemma_views_push(references@, x);
            assert(lr.take(k + 1).map_values(|x: ReferenceView| placed(x, c)) =~= lr.take(
                k,
            ).map_values(|x: ReferenceView| placed(x, c)).push(placed(lr[k], c)));
        }
        references.push(x);
        proof {
            k = k + 1;
        }
    }
    proof {
        assert(lr.take(k) =~= lr);
    }
}

/// Everything a line that is neither literal content nor a `toctree` entry
/// adds.
fn rest_part(
    t: &[char],
    lo: usize,
    hi: usize,
    index: usize,
    block: Block,
    titled: bool,
    dir_body: bool,
    lit_inc: bool,
    ls: usize,
    le: usize,
    nx: usize,
    r: &mut Reader,
    Ghost(c): Ghost<BlockContext>,
)
    requires
        lo <= ls <= le <= nx <= hi <= t@.len(),
        byte_len(t@) <= usize::MAX,
        old(r).fits(t@.len() as int),
        c == (BlockContext { lo: lo as int, hi: hi as int, index, block, titled, dir_body, lit_inc }),
    ensures
        final(r)@ == rest_step(t@, c, ls as int, le as int, nx as int, old(r)@),
        final(r).fits(t@.len() as int),
{
    let ghost s = r@;
    let at = block.span.0.saturating_add(bytes_between(t, lo, ls));
    let ts = skip_spaces(t, ls, le);
    let ind = bytes_between(t, ls, ts);
    if titled {
        title_part(t, lo, block, ls, le, nx, r, Ghost(c));
    }
    declare(&mut r.anchors, &mut r.glossary, t, ls, le, ind, matches!(block.kind, Kind::Directive));
    let chunk_end = if ls >= r.read_until {
        let end = wrapped(t, ls, le, hi);
        r.read_until = end;
        end
    } else {
        ls
    };
    selection_part(t, index, lit_inc, ls, le, &mut r.references, Ghost(c));
    let found = line_references(t, ls, chunk_end, at);
    push_placed(&mut r.references, found, index, block, dir_body, Ghost(c));
    if r.literal.is_none() {
        r.literal = match literal_opener_at(t, ls, le) {
            Some(o) => Some((ind, o)),
            None => None,
        };
    }
    let n = directive_name_at(t, ts, le);
    r.toctree = if named_at(t, n, "toctree") {
        Some(ind)
    } else {
        None
    };
    proof {
        let e = rest_step(t@, c, ls as int, le as int, nx as int, s);
        assert(r@.references == e.references);
        assert(r@.anchors =~= e.anchors);
    }
}

/// One line `[ls, le)` of a block, whose raw line ends at `nx`.
fn read_line(
    t: &[char],
    lo: usize,
    hi: usize,
    index: usize,
    block: Block,
    titled: bool,
    dir_body: bool,
    lit_inc: bool,
    ls: usize,
    le: usize,
    nx: usize,
    r: &mut Reader,
    Ghost(c): Ghost<BlockContext>,
)
    requires
        lo <= ls <= le <= nx <= hi <= t@.len(),
        byte_len(t@) <= usize::MAX,
        old(r).fits(t@.len() as int),
        c == (BlockContext { lo: lo as int, hi: hi as int, index, block, titled, dir_body, lit_inc }),
    ensures
        final(r)@ == read_step(t@, c, ls as int, le as int, nx as int, old(r)@),
        final(r).fits(t@.len() as int),
{
    let at = block.span.0.saturating_add(bytes_between(t, lo, ls));
    let ts = skip_spaces(t, ls, le);
    let ind = bytes_between(t, ls, ts);
    let bl = ts >= le;
    let colon = [':'];
    assert(colon@ == seq![':']);
    match r.literal {
        Some((opened, options)) => {
            if bl || ind > opened {
                let option = options && !bl && starts_at(t, ts, le, colon.as_slice());
                r.literal = Some((opened, option));
                if !option {
                    return;
                }
            } else {
                r.literal = None;
            }
        },
        None => {},
    }
    if let Some(opened) = r.toctree {
        if bl || ind > opened {
            if let Some(mut entry) = toctree_entry(t, ls, le, at) {
                entry.block = index;
                entry.block_span = block.span;
                proof {
                    crate::rst::directive::lemma_views_push(r.references@, entry);
                }
                r.references.push(entry);
            }
            return;
        }
    }
    r.toctree = None;
    rest_part(t, lo, hi, index, block, titled, dir_body, lit_inc, ls, le, nx, r, Ghost(c));
}


/// The state a block starts reading with: what the document gathered so far,
/// and nothing carried between lines.
pub open spec fn fresh(s: ReadState, lo: int) -> ReadState {
    ReadState {
        previous: None,
        literal: None,
        toctree: None,
        glossary: None,
        read_until: lo,
        ..s
    }
}

/// Reads every line of one block's body `[lo, hi)`.
fn read_block(
    t: &[char],
    lo: usize,
    hi: usize,
    index: usize,
    block: Block,
    titled: bool,
    r: &mut Reader,
    Ghost(c): Ghost<BlockContext>,
)
    requires
        lo <= hi <= t@.len(),
        byte_len(t@) <= usize::MAX,
        old(r).fits(t@.len() as int),
        c == (BlockContext {
            lo: lo as int,
            hi: hi as int,
            index,
            block,
            titled,
            dir_body: has_body(t@, lo as int, hi as int),
            lit_inc: block.kind == Kind::Directive && opens_literal_include(
                t@,
                lo as int,
                hi as int,
            ),
        }),
    ensures
        final(r)@ == read_lines(t@, c, lo as int, fresh(old(r)@, lo as int)),
        final(r).fits(t@.len() as int),
{
    let dir_body = has_body_at(t, lo, hi);
    let lit_inc = matches!(block.kind, Kind::Directive) && opens_literal_include_at(t, lo, hi);
    r.previous = None;
    r.literal = None;
    r.toctree = None;
    r.glossary = None;
    r.read_until = lo;
    let mut i = lo;
    while i < hi
        invariant
            lo <= i <= hi <= t@.len(),
            byte_len(t@) <= usize::MAX,
            r.fits(t@.len() as int),
            c == (BlockContext { lo: lo as int, hi: hi as int, index, block, titled, dir_body, lit_inc }),
            read_lines(t@, c, i as int, r@) == read_lines(t@, c, lo as int, fresh(old(r)@, lo as int)),
        decreases hi - i,
    {
        let e = find_char(t, i, hi, '\n');
        proof {
            lemma_find(t@, i as int, hi as int, '\n');
        }
        let nx = if e < hi {
            e + 1
        } else {
            hi
        };
        read_line(t, lo, hi, index, block, titled, dir_body, lit_inc, i, e, nx, r, Ghost(c));
        i = nx;
    }
}

// ---------------------------------------------------------------------------
// Governed carriers

/// A governed carrier with its strings read as characters.
pub struct GovernedView {
    pub span: (usize, usize),
    pub label: Seq<char>,
    pub url: Seq<char>,
    pub title: Seq<char>,
}

impl View for GovernedCarrier {
    type V = GovernedView;

    open spec fn view(&self) -> GovernedView {
        GovernedView {
            span: self.span,
            label: self.label@,
            url: self.url@,
            title: self.title@,
        }
    }
}

pub open spec fn governed_views(s: Seq<GovernedCarrier>) -> Seq<GovernedView> {
    s.map_values(|x: GovernedCarrier| x@)
}

pub open spec fn carrier_open() -> Seq<char> {
    seq!['[', 'a', 'm', 'i', 's', 's', ':']
}

/// The reserved carrier line `[amiss:name]: <url> "title"` in `[a, e)`: the
/// windows of its label, url and title.
pub open spec fn governed_line(t: Seq<char>, a: int, e: int) -> Option<((int, int), (int, int), (int, int))> {
    if !starts(t, a, e, carrier_open()) {
        None
    } else {
        let k = find(t, a + 1, e, ']');
        if !(k < e && k > a + 7 && starts(t, k, e, seq![']', ':', ' ', '<'])) {
            None
        } else {
            let u = find(t, k + 4, e, '>');
            if u < e && u > k + 4 && starts(t, u, e, seq!['>', ' ', '"']) && e - 1 >= u + 3 && t[e
                - 1] == '"' && !has_char(t, u + 3, e - 1, '"') {
                Some(((a + 1, k), (k + 4, u), (u + 3, e - 1)))
            } else {
                None
            }
        }
    }
}

/// The reserved governed carrier: a column-zero comment `[lo, hi)` whose
/// first line is exactly the carrier line and whose remainder is blank. The
/// first index is where that line ends, `\r` aside, so the governed span
/// excludes the terminator and the blank tail, which is what keeps an applied
/// fix from merging the comment into the prose after it.
pub open spec fn carrier(t: Seq<char>, lo: int, hi: int) -> Option<(int, ((int, int), (int, int), (int, int)))> {
    let nl = find(t, lo, hi, '\n');
    if nl < hi && !blank(t, nl + 1, hi) {
        None
    } else {
        let le = if nl > lo && t[nl - 1] == '\r' {
            nl - 1
        } else {
            nl
        };
        if !starts(t, lo, le, seq!['.', '.', ' ']) {
            None
        } else {
            match governed_line(t, lo + 3, le) {
                Some(w) => Some((le, w)),
                None => None,
            }
        }
    }
}

fn carrier_at(t: &[char], lo: usize, hi: usize) -> (r: Option<(usize, (usize, usize), (usize, usize), (usize, usize))>)
    requires
        lo <= hi <= t@.len(),
    ensures
        r matches Some(x) ==> carrier(t@, lo as int, hi as int) == Some(
            (
                x.0 as int,
                ((x.1.0 as int, x.1.1 as int), (x.2.0 as int, x.2.1 as int), (x.3.0 as int, x.3.1 as int)),
            ),
        ) && lo <= x.0 <= hi && x.1.0 <= x.1.1 <= t@.len() && x.2.0 <= x.2.1 <= t@.len() && x.3.0 <= x.3.1 <= t@.len(),
        r is None ==> carrier(t@, lo as int, hi as int) is None,
{
    let nl = find_char(t, lo, hi, '\n');
    proof {
        lemma_find(t@, lo as int, hi as int, '\n');
    }
    if nl < hi && skip_spaces(t, nl + 1, hi) < hi {
        return None;
    }
    let le = if nl > lo && t[nl - 1] == '\r' {
        nl - 1
    } else {
        nl
    };
    let dds = ['.', '.', ' '];
    assert(dds@ == seq!['.', '.', ' ']);
    if !starts_at(t, lo, le, dds.as_slice()) {
        return None;
    }
    let a = lo + 3;
    let e = le;
    let open = ['[', 'a', 'm', 'i', 's', 's', ':'];
    let close = [']', ':', ' ', '<'];
    let quote = ['>', ' ', '"'];
    assert(open@ == carrier_open());
    assert(close@ == seq![']', ':', ' ', '<']);
    assert(quote@ == seq!['>', ' ', '"']);
    if !starts_at(t, a, e, open.as_slice()) {
        return None;
    }
    let k = find_char(t, a + 1, e, ']');
    proof {
        lemma_find(t@, a + 1, e as int, ']');
    }
    if !(k < e && k > a + 7 && starts_at(t, k, e, close.as_slice())) {
        return None;
    }
    let u = find_char(t, k + 4, e, '>');
    proof {
        lemma_find(t@, k + 4, e as int, '>');
    }
    if u < e && u > k + 4 && starts_at(t, u, e, quote.as_slice()) && e - 1 >= u + 3 && t[e - 1]
        == '"' && !any_char(t, u + 3, e - 1, '"') {
        Some((le, (a + 1, k), (k + 4, u), (u + 3, e - 1)))
    } else {
        None
    }
}


// ---------------------------------------------------------------------------
// The document

/// An extraction with its strings read as characters.
pub struct ExtractionView {
    pub references: Seq<ReferenceView>,
    pub titles: Seq<TitleView>,
    pub governed: Seq<GovernedView>,
    pub anchors: Seq<Seq<char>>,
    pub opaque: Seq<(usize, usize)>,
    pub blocks: usize,
    pub nesting: usize,
}

impl View for Extraction {
    type V = ExtractionView;

    open spec fn view(&self) -> ExtractionView {
        ExtractionView {
            references: views(self.references@),
            titles: title_views(self.titles@),
            governed: governed_views(self.governed@),
            anchors: string_views(self.anchors@),
            opaque: self.opaque@,
            blocks: self.blocks,
            nesting: self.nesting,
        }
    }
}

/// What reading the blocks gathers: the reader's state, and the governed
/// carriers and unread spans found so far.
pub struct DocState {
    pub read: ReadState,
    pub governed: Seq<GovernedView>,
    pub opaque: Seq<(usize, usize)>,
}

/// The character window a block's byte span covers, or the empty window when
/// the span does not fall on character boundaries.
pub open spec fn body_window(t: Seq<char>, span: (usize, usize)) -> (int, int) {
    match (char_index(t, span.0 as int), char_index(t, span.1 as int)) {
        (Some(i), Some(j)) => if i <= j {
            (i, j)
        } else {
            (0, 0)
        },
        _ => (0, 0),
    }
}

/// What a block contributes. A comment is a governed carrier or unread; a
/// literal block and a `raw` directive are unread; any other directive and
/// a paragraph are read line by line, and only a paragraph's lines make
/// titles.
pub open spec fn doc_step(t: Seq<char>, k: int, b: Block, s: DocState) -> DocState {
    let (lo, hi) = body_window(t, b.span);
    let read = |titled: bool|
        {
            let c = BlockContext {
                lo,
                hi,
                index: k as usize,
                block: b,
                titled,
                dir_body: has_body(t, lo, hi),
                lit_inc: b.kind == Kind::Directive && opens_literal_include(t, lo, hi),
            };
            DocState { read: read_lines(t, c, lo, fresh(s.read, lo)), ..s }
        };
    match b.kind {
        Kind::Comment => match carrier(t, lo, hi) {
            Some((le, w)) => {
                let (l, u, ti) = w;
                DocState {
                    governed: s.governed.push(
                        GovernedView {
                            span: (b.span.0, b.span.0.saturating_add(rel(t, lo, le))),
                            label: t.subrange(l.0, l.1),
                            url: t.subrange(u.0, u.1),
                            title: t.subrange(ti.0, ti.1),
                        },
                    ),
                    ..s
                }
            },
            None => DocState { opaque: s.opaque.push(b.span), ..s },
        },
        Kind::Literal => DocState { opaque: s.opaque.push(b.span), ..s },
        Kind::Directive => if raw_directive(t, lo, hi) {
            DocState { opaque: s.opaque.push(b.span), ..s }
        } else {
            read(false)
        },
        Kind::Text => read(true),
    }
}

/// The state after the blocks from index `k` on.
pub open spec fn doc_from(t: Seq<char>, bs: Seq<Block>, k: int, s: DocState) -> DocState
    decreases bs.len() - k,
{
    if 0 <= k < bs.len() {
        doc_from(t, bs, k + 1, doc_step(t, k, bs[k], s))
    } else {
        s
    }
}

/// The deepest indent any block opened at, or zero.
pub open spec fn max_indent(bs: Seq<Block>) -> usize
    decreases bs.len(),
{
    if bs.len() == 0 {
        0
    } else {
        let m = max_indent(bs.drop_last());
        if bs.last().indent > m {
            bs.last().indent
        } else {
            m
        }
    }
}

/// The blocks of a document in span order.
pub open spec fn document_blocks(t: Seq<char>) -> Seq<Block> {
    span_sort(scanned_blocks(t), |b: Block| block_span(b))
}

pub open spec fn empty_doc() -> DocState {
    DocState {
        read: ReadState {
            references: Seq::empty(),
            titles: Seq::empty(),
            anchors: Seq::empty(),
            order: Seq::empty(),
            previous: None,
            literal: None,
            toctree: None,
            glossary: None,
            read_until: 0,
        },
        governed: Seq::empty(),
        opaque: Seq::empty(),
    }
}

/// Everything one reStructuredText scan of the characters `t` yields.
pub open spec fn extraction_of(t: Seq<char>) -> ExtractionView {
    let bs = document_blocks(t);
    let s = doc_from(t, bs, 0, empty_doc());
    ExtractionView {
        references: s.read.references,
        titles: s.read.titles,
        governed: s.governed,
        anchors: s.read.anchors,
        opaque: s.opaque,
        blocks: bs.len() as usize,
        nesting: max_indent(bs),
    }
}

pub proof fn lemma_governed_views_push(s: Seq<GovernedCarrier>, x: GovernedCarrier)
    ensures
        governed_views(s.push(x)) == governed_views(s).push(x@),
{
    assert(governed_views(s.push(x)) =~= governed_views(s).push(x@));
}

/// Scans one reStructuredText document: what its bytes say once read as
/// UTF-8, and `NotUtf8` exactly when they are not valid UTF-8.
pub fn extract(source: &[u8]) -> (r: Result<Extraction, Refusal>)
    ensures
        r is Err <==> !valid_utf8(source@),
        r matches Err(e) ==> e == Refusal::NotUtf8,
        r matches Ok(x) ==> x@ == extraction_of(decode_utf8(source@)),
{
    let text = match utf8_text(source) {
        Some(s) => s,
        None => {
            return Err(Refusal::NotUtf8);
        },
    };
    let chars = chars_of(text);
    let t = chars.as_slice();
    let scanned = blocks_of(t);
    let ghost bs = scanned@;
    let mut nesting: usize = 0;
    let mut k: usize = 0;
    while k < scanned.len()
        invariant
            k <= scanned@.len(),
            nesting == max_indent(scanned@.take(k as int)),
        decreases scanned@.len() - k,
    {
        assert(scanned@.take(k + 1).drop_last() =~= scanned@.take(k as int));
        if scanned[k].indent > nesting {
            nesting = scanned[k].indent;
        }
        k = k + 1;
    }
    assert(scanned@.take(scanned@.len() as int) =~= scanned@);
    let mut r = Reader {
        references: Vec::new(),
        titles: Vec::new(),
        anchors: Vec::new(),
        order: Vec::new(),
        previous: None,
        literal: None,
        toctree: None,
        glossary: None,
        read_until: 0,
    };
    let mut governed: Vec<GovernedCarrier> = Vec::new();
    let mut opaque: Vec<(usize, usize)> = Vec::new();
    proof {
        assert(r@.references =~= Seq::<ReferenceView>::empty());
        assert(r@.titles =~= Seq::<TitleView>::empty());
        assert(r@.anchors =~= Seq::<Seq<char>>::empty());
        assert(governed_views(governed@) =~= Seq::<GovernedView>::empty());
    }
    let mut index: usize = 0;
    while index < scanned.len()
        invariant
            index <= scanned@.len(),
            byte_len(t@) <= usize::MAX,
            r.fits(t@.len() as int),
            doc_from(
                t@,
                scanned@,
                index as int,
                DocState { read: r@, governed: governed_views(governed@), opaque: opaque@ },
            ) == doc_from(t@, scanned@, 0, empty_doc()),
        decreases scanned@.len() - index,
    {
        let b = scanned[index];
        let (lo, hi) = match (char_index_of(t, b.span.0), char_index_of(t, b.span.1)) {
            (Some(i), Some(j)) => if i <= j {
                (i, j)
            } else {
                (0, 0)
            },
            _ => (0, 0),
        };
        match b.kind {
            Kind::Comment => {
                match carrier_at(t, lo, hi) {
                    Some((le, l, u, ti)) => {
                        let length = bytes_between(t, lo, le);
                        let g = GovernedCarrier {
                            span: (b.span.0, b.span.0.saturating_add(length)),
                            label: text_of(t, l.0, l.1),
                            url: text_of(t, u.0, u.1),
                            title: text_of(t, ti.0, ti.1),
                        };
                        proof {
                            lemma_governed_views_push(governed@, g);
                        }
                        governed.push(g);
                    },
                    None => {
                        opaque.push(b.span);
                    },
                }
            },
            Kind::Literal => {
                opaque.push(b.span);
            },
            Kind::Directive => {
                if raw_directive_at(t, lo, hi) {
                    opaque.push(b.span);
                } else {
                    let ghost c = BlockContext {
                        lo: lo as int,
                        hi: hi as int,
                        index,
                        block: b,
                        titled: false,
                        dir_body: has_body(t@, lo as int, hi as int),
                        lit_inc: b.kind == Kind::Directive && opens_literal_include(
                            t@,
                            lo as int,
                            hi as int,
                        ),
                    };
                    read_block(t, lo, hi, index, b, false, &mut r, Ghost(c));
                }
            },
            Kind::Text => {
                let ghost c = BlockContext {
                    lo: lo as int,
                    hi: hi as int,
                    index,
                    block: b,
                    titled: true,
                    dir_body: has_body(t@, lo as int, hi as int),
                    lit_inc: b.kind == Kind::Directive && opens_literal_include(
                        t@,
                        lo as int,
                        hi as int,
                    ),
                };
                read_block(t, lo, hi, index, b, true, &mut r, Ghost(c));
            },
        }
        index = index + 1;
    }
    let Reader { references, titles, anchors, .. } = r;
    Ok(
        Extraction {
            references,
            titles,
            governed,
            anchors,
            opaque,
            blocks: scanned.len(),
            nesting,
        },
    )
}

} // verus!
