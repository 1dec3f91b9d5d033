//! What the lines of one block say beyond their references: the directive a
//! line opens, the literal body it starts, the labels and glossary terms it
//! declares, the part of a file a `literalinclude` option selects, and how far
//! inline markup wraps onto the lines after it.

use vstd::prelude::*;

use crate::rst::directive::{declared_label, lemma_trim, trim_hi, trim_lo, word};
use crate::text::{
    back_space, back_spaces, blank, chars_of, ends, ends_at, equals, equals_at, find, find_char,
    has_space, is_space, lemma_back_space, lemma_find, lemma_skip_space, skip_space,
    skip_spaces, space, starts, starts_at, any_space,
};

verus! {

/// The first `ab` pair in `[i, hi)`: the index of its `a`, or `hi`.
pub open spec fn find_pair(t: Seq<char>, i: int, hi: int, a: char, b: char) -> int
    decreases hi - i,
{
    if i + 1 < hi {
        if t[i] == a && t[i + 1] == b {
            i
        } else {
            find_pair(t, i + 1, hi, a, b)
        }
    } else {
        hi
    }
}

pub proof fn lemma_find_pair(t: Seq<char>, i: int, hi: int, a: char, b: char)
    requires
        0 <= i <= hi <= t.len(),
    ensures
        i <= find_pair(t, i, hi, a, b) <= hi,
        find_pair(t, i, hi, a, b) < hi ==> find_pair(t, i, hi, a, b) + 1 < hi,
    decreases hi - i,
{
    if i + 1 < hi && !(t[i] == a && t[i + 1] == b) {
        lemma_find_pair(t, i + 1, hi, a, b);
    }
}

pub fn find_pair_at(t: &[char], i: usize, hi: usize, a: char, b: char) -> (k: usize)
    requires
        i <= hi <= t@.len(),
    ensures
        k == find_pair(t@, i as int, hi as int, a, b),
        i <= k <= hi,
        k < hi ==> k + 1 < hi,
{
    proof {
        lemma_find_pair(t@, i as int, hi as int, a, b);
    }
    let mut k = i;
    while hi - k > 1
        invariant
            i <= k <= hi <= t@.len(),
            find_pair(t@, k as int, hi as int, a, b) == find_pair(t@, i as int, hi as int, a, b),
        decreases hi - k,
    {
        if t[k] == a && t[k + 1] == b {
            return k;
        }
        k = k + 1;
    }
    hi
}

/// The name of the directive a line opens at `ts`, `code-block` for
/// `.. code-block::`, as a trimmed window.
pub open spec fn directive_name(t: Seq<char>, ts: int, e: int) -> Option<(int, int)> {
    if starts(t, ts, e, seq!['.', '.', ' ']) {
        let k = find_pair(t, ts + 3, e, ':', ':');
        if k < e {
            Some((trim_lo(t, ts + 3, k), trim_hi(t, ts + 3, k)))
        } else {
            None
        }
    } else {
        None
    }
}

pub fn directive_name_at(t: &[char], ts: usize, e: usize) -> (n: Option<(usize, usize)>)
    requires
        ts <= e <= t@.len(),
    ensures
        n matches Some(w) ==> directive_name(t@, ts as int, e as int) == Some(
            (w.0 as int, w.1 as int),
        ) && ts <= w.0 <= w.1 <= e,
        n is None ==> directive_name(t@, ts as int, e as int) is None,
{
    let dds = ['.', '.', ' '];
    assert(dds@ == seq!['.', '.', ' ']);
    if !starts_at(t, ts, e, dds.as_slice()) {
        return None;
    }
    let k = find_pair_at(t, ts + 3, e, ':', ':');
    if k < e {
        proof {
            lemma_trim(t@, ts + 3, k as int);
        }
        let x = skip_spaces(t, ts + 3, k);
        let y = back_spaces(t, x, k);
        Some((x, y))
    } else {
        None
    }
}

/// Whether a directive name is exactly `name`.
pub open spec fn named(t: Seq<char>, n: Option<(int, int)>, name: Seq<char>) -> bool {
    match n {
        Some(w) => equals(t, w.0, w.1, name),
        None => false,
    }
}

pub fn named_at(t: &[char], n: Option<(usize, usize)>, name: &str) -> (b: bool)
    requires
        n matches Some(w) ==> w.0 <= w.1 <= t@.len(),
    ensures
        b == named(
            t@,
            match n {
                Some(w) => Some((w.0 as int, w.1 as int)),
                None => None,
            },
            name@,
        ),
{
    match n {
        Some((a, b)) => {
            let p = chars_of(name);
            equals_at(t, a, b, p.as_slice())
        },
        None => false,
    }
}

/// ASCII lowercase, on code points.
pub open spec fn lower(c: char) -> u32 {
    let u = c as u32;
    if 65 <= u <= 90 {
        (u + 32) as u32
    } else {
        u
    }
}

/// Whether `[a, b)` spells `p` once ASCII case is ignored.
pub open spec fn equals_ignoring_case(t: Seq<char>, a: int, b: int, p: Seq<char>) -> bool {
    b - a == p.len() && forall|k: int| 0 <= k < p.len() ==> #[trigger] lower(t[a + k]) == lower(p[k])
}

fn lower_at(c: char) -> (u: u32)
    ensures
        u == lower(c),
{
    let u = c as u32;
    if 65 <= u && u <= 90 {
        u + 32
    } else {
        u
    }
}

pub fn equals_ignoring_case_at(t: &[char], a: usize, b: usize, name: &str) -> (r: bool)
    requires
        a <= b <= t@.len(),
    ensures
        r == equals_ignoring_case(t@, a as int, b as int, name@),
{
    let p = chars_of(name);
    if b - a != p.len() {
        return false;
    }
    let mut k: usize = 0;
    while k < p.len()
        invariant
            k <= p@.len(),
            b - a == p@.len(),
            a <= b <= t@.len(),
            p@ == name@,
            forall|m: int| 0 <= m < k ==> #[trigger] lower(t@[a + m]) == lower(p@[m]),
        decreases p@.len() - k,
    {
        if lower_at(t[a + k]) != lower_at(p[k]) {
            assert(lower(t@[a + k]) != lower(p@[k as int]));
            return false;
        }
        k = k + 1;
    }
    true
}

/// The directives whose body is code, output, or diagram source rather than
/// reStructuredText; Docutils and Sphinx render it as it is written.
pub open spec fn literal_directives() -> Seq<Seq<char>> {
    seq![
        "code"@,
        "code-block"@,
        "sourcecode"@,
        "doctest"@,
        "testcode"@,
        "testoutput"@,
        "testsetup"@,
        "testcleanup"@,
        "ipython"@,
        "jupyter-execute"@,
        "math"@,
        "graphviz"@,
        "graph"@,
        "digraph"@,
        "uml"@,
        "mermaid"@,
        "prompt"@,
    ]
}

pub open spec fn literal_directive(t: Seq<char>, a: int, b: int) -> bool {
    exists|i: int|
        0 <= i < literal_directives().len() && #[trigger] equals_ignoring_case(
            t,
            a,
            b,
            literal_directives()[i],
        )
}

fn literal_directive_at(t: &[char], a: usize, b: usize) -> (r: bool)
    requires
        a <= b <= t@.len(),
    ensures
        r == literal_directive(t@, a as int, b as int),
{
    let names: [&str; 17] = [
        "code",
        "code-block",
        "sourcecode",
        "doctest",
        "testcode",
        "testoutput",
        "testsetup",
        "testcleanup",
        "ipython",
        "jupyter-execute",
        "math",
        "graphviz",
        "graph",
        "digraph",
        "uml",
        "mermaid",
        "prompt",
    ];
    assert(forall|i: int| 0 <= i < 17 ==> #[trigger] names@[i]@ == literal_directives()[i]);
    let mut i: usize = 0;
    while i < 17
        invariant
            i <= 17,
            a <= b <= t@.len(),
            forall|i: int| 0 <= i < 17 ==> #[trigger] names@[i]@ == literal_directives()[i],
            forall|j: int|
                0 <= j < i ==> !#[trigger] equals_ignoring_case(
                    t@,
                    a as int,
                    b as int,
                    literal_directives()[j],
                ),
        decreases 17 - i,
    {
        if equals_ignoring_case_at(t, a, b, names[i]) {
            assert(equals_ignoring_case(t@, a as int, b as int, literal_directives()[i as int]));
            return true;
        }
        i = i + 1;
    }
    false
}

/// Whether a line `[a, e)` opens a literal body: `Some(true)` for a literal
/// directive, whose option lines still count, `Some(false)` for a paragraph
/// line ending in `::`, whose indented continuation is a literal block
/// wherever it sits.
pub open spec fn literal_opener(t: Seq<char>, a: int, e: int) -> Option<bool> {
    let ts = skip_space(t, a, e);
    if starts(t, ts, e, seq!['.', '.']) {
        match directive_name(t, ts, e) {
            Some(n) => if literal_directive(t, n.0, n.1) {
                Some(true)
            } else {
                None
            },
            None => None,
        }
    } else if ends(t, ts, back_space(t, ts, e), seq![':', ':']) {
        Some(false)
    } else {
        None
    }
}

pub fn literal_opener_at(t: &[char], a: usize, e: usize) -> (r: Option<bool>)
    requires
        a <= e <= t@.len(),
    ensures
        r == literal_opener(t@, a as int, e as int),
{
    let ts = skip_spaces(t, a, e);
    let dots = ['.', '.'];
    let colons = [':', ':'];
    assert(dots@ == seq!['.', '.']);
    assert(colons@ == seq![':', ':']);
    if starts_at(t, ts, e, dots.as_slice()) {
        return match directive_name_at(t, ts, e) {
            Some((n0, n1)) => if literal_directive_at(t, n0, n1) {
                Some(true)
            } else {
                None
            },
            None => None,
        };
    }
    let te = back_spaces(t, ts, e);
    if ends_at(t, ts, te, colons.as_slice()) {
        Some(false)
    } else {
        None
    }
}

/// A `raw` directive injects its body into the output verbatim: rendered
/// content the parser cannot read. A nested directive keeps its indent in the
/// body, so the marker is read past it. Read from the first line of `[lo, hi)`.
pub open spec fn raw_directive(t: Seq<char>, lo: int, hi: int) -> bool {
    let e = find(t, lo, hi, '\n');
    match directive_name(t, skip_space(t, lo, e), e) {
        Some(n) => equals_ignoring_case(t, n.0, n.1, "raw"@),
        None => false,
    }
}

pub fn raw_directive_at(t: &[char], lo: usize, hi: usize) -> (r: bool)
    requires
        lo <= hi <= t@.len(),
    ensures
        r == raw_directive(t@, lo as int, hi as int),
{
    let e = find_char(t, lo, hi, '\n');
    let ts = skip_spaces(t, lo, e);
    match directive_name_at(t, ts, e) {
        Some((n0, n1)) => equals_ignoring_case_at(t, n0, n1, "raw"),
        None => false,
    }
}

/// Whether the block `[lo, hi)` opens a `literalinclude`, the directive whose
/// options select part of a file.
pub open spec fn opens_literal_include(t: Seq<char>, lo: int, hi: int) -> bool {
    let e = find(t, lo, hi, '\n');
    named(t, directive_name(t, skip_space(t, lo, e), e), "literalinclude"@)
}

pub fn opens_literal_include_at(t: &[char], lo: usize, hi: usize) -> (r: bool)
    requires
        lo <= hi <= t@.len(),
    ensures
        r == opens_literal_include(t@, lo as int, hi as int),
{
    let e = find_char(t, lo, hi, '\n');
    let ts = skip_spaces(t, lo, e);
    let n = directive_name_at(t, ts, e);
    named_at(t, n, "literalinclude")
}

/// Whether any line after the first of `[lo, hi)` holds something.
pub open spec fn has_body(t: Seq<char>, lo: int, hi: int) -> bool {
    let e = find(t, lo, hi, '\n');
    e < hi && !blank(t, e + 1, hi)
}

pub fn has_body_at(t: &[char], lo: usize, hi: usize) -> (r: bool)
    requires
        lo <= hi <= t@.len(),
    ensures
        r == has_body(t@, lo as int, hi as int),
{
    let e = find_char(t, lo, hi, '\n');
    if e < hi {
        let s = skip_spaces(t, e + 1, hi);
        s < hi
    } else {
        false
    }
}

/// The first index from `i` on at which `order` holds `c`, or its length.
pub open spec fn position(order: Seq<char>, c: char, i: int) -> int
    decreases order.len() - i,
{
    if i < order.len() && order[i] != c {
        position(order, c, i + 1)
    } else {
        i
    }
}

/// The level a title's underline character takes: its place in the order
/// the document first used each character, and the order after it.
pub open spec fn title_level(order: Seq<char>, c: char) -> (usize, Seq<char>) {
    if position(order, c, 0) < order.len() {
        ((position(order, c, 0) + 1) as usize, order)
    } else {
        ((order.len() + 1) as usize, order.push(c))
    }
}

proof fn lemma_position_push(order: Seq<char>, x: char, d: char, i: int)
    requires
        0 <= i <= order.len(),
    ensures
        position(order.push(x), d, i) == (if position(order, d, i) < order.len() {
            position(order, d, i)
        } else if x == d {
            order.len() as int
        } else {
            order.len() as int + 1
        }),
        position(order, d, i) <= order.len(),
    decreases order.len() - i,
{
    if i < order.len() {
        assert(order.push(x)[i] == order[i]);
        if order[i] != d {
            lemma_position_push(order, x, d, i + 1);
        }
    } else {
        assert(order.push(x)[i] == x);
        if x != d {
            assert(position(order.push(x), d, i + 1) == i + 1);
        }
    }
}

/// A section level comes from the order its underline first appears: a
/// character keeps the level it was first given, however many titles follow,
/// and a character first seen later never moves an earlier one.
pub proof fn lemma_levels_are_stable(order: Seq<char>, c: char, d: char)
    ensures
        title_level(title_level(order, c).1, c) == title_level(order, c),
        position(order, d, 0) < order.len() ==> title_level(title_level(order, c).1, d).0
            == title_level(order, d).0,
{
    lemma_position_push(order, c, c, 0);
    lemma_position_push(order, c, d, 0);
}

proof fn char_range(c: char)
    ensures
        0 <= c as int <= 0x10FFFF,
{
    vstd::utf8::char_is_scalar(c);
    let u = c as u32;
    assert(u as int == c as int);
}

/// A sequence of distinct characters is no longer than the code space.
pub proof fn lemma_distinct_chars(s: Seq<char>)
    requires
        s.no_duplicates(),
    ensures
        s.len() <= 0x110000,
{
    let f = |c: char| c as int;
    assert(vstd::relations::injective(f)) by {
        assert forall|a: char, b: char| #[trigger] f(a) == #[trigger] f(b) implies a == b by {
            vstd::utf8::char_u32_cast(a, a as u32);
            vstd::utf8::char_u32_cast(b, b as u32);
        }
    }
    s.lemma_no_duplicates_injective(f);
    let m = s.map_values(f);
    m.unique_seq_to_set();
    vstd::set_lib::lemma_int_range(0, 0x110000);
    assert forall|x: int| m.to_set().contains(x) implies vstd::set_lib::set_int_range(
        0,
        0x110000,
    ).contains(x) by {
        assert(m.contains(x));
        let i = choose|i: int| 0 <= i < m.len() && m[i] == x;
        assert(x == s[i] as int);
        char_range(s[i]);
    }
    vstd::set_lib::lemma_len_subset(m.to_set(), vstd::set_lib::set_int_range(0, 0x110000));
}

pub fn title_level_of(order: &mut Vec<char>, c: char) -> (level: usize)
    requires
        old(order)@.no_duplicates(),
    ensures
        (level, final(order)@) == title_level(old(order)@, c),
        final(order)@.no_duplicates(),
{
    proof {
        lemma_distinct_chars(order@);
    }
    let mut i: usize = 0;
    while i < order.len()
        invariant
            i <= order@.len(),
            order@.len() < usize::MAX,
            order@.no_duplicates(),
            forall|k: int| 0 <= k < i ==> order@[k] != c,
            position(order@, c, i as int) == position(order@, c, 0),
        decreases order@.len() - i,
    {
        if order[i] == c {
            return i + 1;
        }
        i = i + 1;
    }
    let ghost before = order@;
    order.push(c);
    proof {
        assert forall|a: int, b: int| 0 <= a < b < order@.len() implies order@[a] != order@[b] by {
            if b == before.len() {
                assert(order@[a] == before[a]);
            }
        }
    }
    order.len()
}


// ---------------------------------------------------------------------------
// Glossaries and declared names

/// A `glossary` body being read: the opener's indent, and the indent its
/// first term set, which every later term shares.
pub type Glossary = Option<(usize, Option<usize>)>;

/// The first ` : ` in `[a, b)`, or `b`.
pub open spec fn find_classifier(t: Seq<char>, a: int, b: int) -> int
    decreases b - a,
{
    if a + 3 <= b {
        if t[a] == ' ' && t[a + 1] == ':' && t[a + 2] == ' ' {
            a
        } else {
            find_classifier(t, a + 1, b)
        }
    } else {
        b
    }
}

/// The characters of `s` with every backtick removed.
pub open spec fn drop_ticks(s: Seq<char>) -> Seq<char>
    decreases s.len(),
{
    if s.len() == 0 {
        s
    } else if s.last() == '`' {
        drop_ticks(s.drop_last())
    } else {
        drop_ticks(s.drop_last()).push(s.last())
    }
}

/// A term may carry classifiers after ` : `, which name no part of it, and
/// its backticks are markup.
pub open spec fn term_text(t: Seq<char>, a: int, e: int) -> Seq<char> {
    let x0 = trim_lo(t, a, e);
    let x1 = trim_hi(t, a, e);
    drop_ticks(t.subrange(x0, find_classifier(t, x0, x1)))
}

/// The term one line `[a, e)` of a glossary body declares, and the glossary
/// state after it. Options come before the first term, a definition sits
/// deeper than the terms, and a line back at the opener's indent ends the
/// body.
pub open spec fn glossary_step(t: Seq<char>, a: int, e: int, ind: usize, g: Glossary) -> (
    Glossary,
    Option<Seq<char>>,
) {
    match g {
        None => (None, None),
        Some((opened, terms_at)) => if blank(t, a, e) {
            (g, None)
        } else if ind <= opened {
            (None, None)
        } else if terms_at is None && starts(t, skip_space(t, a, e), e, seq![':']) {
            (g, None)
        } else {
            let at = match terms_at {
                Some(x) => x,
                None => ind,
            };
            (
                Some((opened, Some(at))),
                if ind == at {
                    Some(term_text(t, a, e))
                } else {
                    None
                },
            )
        },
    }
}

fn find_classifier_at(t: &[char], a: usize, b: usize) -> (k: usize)
    requires
        a <= b <= t@.len(),
    ensures
        k == find_classifier(t@, a as int, b as int),
        a <= k <= b,
    decreases b - a,
{
    if b - a >= 3 {
        if t[a] == ' ' && t[a + 1] == ':' && t[a + 2] == ' ' {
            a
        } else {
            find_classifier_at(t, a + 1, b)
        }
    } else {
        b
    }
}

fn drop_ticks_of(t: &[char], a: usize, b: usize) -> (s: String)
    requires
        a <= b <= t@.len(),
    ensures
        s@ == drop_ticks(t@.subrange(a as int, b as int)),
{
    let mut s = String::new();
    let mut k = a;
    assert(t@.subrange(a as int, a as int) =~= Seq::<char>::empty());
    while k < b
        invariant
            a <= k <= b <= t@.len(),
            s@ == drop_ticks(t@.subrange(a as int, k as int)),
        decreases b - k,
    {
        assert(t@.subrange(a as int, k + 1).drop_last() =~= t@.subrange(a as int, k as int));
        if t[k] != '`' {
            s.push(t[k]);
        }
        k = k + 1;
    }
    s
}

pub fn glossary_term(t: &[char], a: usize, e: usize, ind: usize, glossary: &mut Glossary) -> (r:
    Option<String>)
    requires
        a <= e <= t@.len(),
    ensures
        (*final(glossary), match r {
            Some(s) => Some(s@),
            None => None::<Seq<char>>,
        }) == glossary_step(t@, a as int, e as int, ind, *old(glossary)),
{
    let (opened, terms_at) = match *glossary {
        Some(state) => state,
        None => {
            return None;
        },
    };
    let ts = skip_spaces(t, a, e);
    if ts >= e {
        return None;
    }
    if ind <= opened {
        *glossary = None;
        return None;
    }
    let colon = [':'];
    assert(colon@ == seq![':']);
    if terms_at.is_none() && starts_at(t, ts, e, colon.as_slice()) {
        return None;
    }
    let at = match terms_at {
        Some(x) => x,
        None => ind,
    };
    *glossary = Some((opened, Some(at)));
    if ind == at {
        proof {
            lemma_trim(t@, a as int, e as int);
        }
        let x0 = ts;
        let x1 = back_spaces(t, x0, e);
        let k = find_classifier_at(t, x0, x1);
        Some(drop_ticks_of(t, x0, k))
    } else {
        None
    }
}

/// A directive's `:name:` option, which declares a label the way a target
/// does.
pub open spec fn name_option(t: Seq<char>, a: int, e: int) -> Option<Seq<char>> {
    let ts = skip_space(t, a, e);
    if starts(t, ts, e, seq![':', 'n', 'a', 'm', 'e', ':']) {
        let v0 = trim_lo(t, ts + 6, e);
        let v1 = trim_hi(t, ts + 6, e);
        if v0 < v1 {
            Some(t.subrange(v0, v1))
        } else {
            None
        }
    } else {
        None
    }
}

fn name_option_of(t: &[char], a: usize, e: usize) -> (r: Option<String>)
    requires
        a <= e <= t@.len(),
    ensures
        match r {
            Some(s) => name_option(t@, a as int, e as int) == Some(s@),
            None => name_option(t@, a as int, e as int) is None,
        },
{
    let ts = skip_spaces(t, a, e);
    let name = [':', 'n', 'a', 'm', 'e', ':'];
    assert(name@ == seq![':', 'n', 'a', 'm', 'e', ':']);
    if !starts_at(t, ts, e, name.as_slice()) {
        return None;
    }
    proof {
        lemma_trim(t@, ts + 6, e as int);
    }
    let v0 = skip_spaces(t, ts + 6, e);
    let v1 = back_spaces(t, v0, e);
    if v0 < v1 {
        Some(crate::text::text_of(t, v0, v1))
    } else {
        None
    }
}

pub open spec fn opt_seq(x: Option<Seq<char>>) -> Seq<Seq<char>> {
    match x {
        Some(s) => seq![s],
        None => Seq::empty(),
    }
}

/// The names one line `[a, e)` declares, in order: a `.. _label:` target, a
/// directive's `:name:` option, and a glossary term; and the glossary state
/// after it, with the glossary a line opens read on the lines after it.
pub open spec fn declare_step(
    t: Seq<char>,
    a: int,
    e: int,
    ind: usize,
    in_directive: bool,
    g: Glossary,
) -> (Seq<Seq<char>>, Glossary) {
    let label = match declared_label(t, a, e) {
        Some(w) => Some(t.subrange(w.0, w.1)),
        None => None,
    };
    let (g2, term) = glossary_step(t, a, e, ind, g);
    let names = opt_seq(label) + (if in_directive {
        opt_seq(name_option(t, a, e))
    } else {
        Seq::empty()
    }) + opt_seq(term);
    let g3 = if named(t, directive_name(t, skip_space(t, a, e), e), "glossary"@) {
        Some((ind, None))
    } else {
        g2
    };
    (names, g3)
}

pub open spec fn string_views(v: Seq<String>) -> Seq<Seq<char>> {
    v.map_values(|s: String| s@)
}

pub proof fn lemma_string_views_push(v: Seq<String>, s: String)
    ensures
        string_views(v.push(s)) == string_views(v).push(s@),
{
    assert(string_views(v.push(s)) =~= string_views(v).push(s@));
}

pub fn declare(
    anchors: &mut Vec<String>,
    glossary: &mut Glossary,
    t: &[char],
    a: usize,
    e: usize,
    ind: usize,
    in_directive: bool,
)
    requires
        a <= e <= t@.len(),
    ensures
        ({
            let (names, g) = declare_step(t@, a as int, e as int, ind, in_directive, *old(glossary));
            &&& string_views(final(anchors)@) == string_views(old(anchors)@) + names
            &&& *final(glossary) == g
        }),
{
    let ghost start = string_views(anchors@);
    let ghost g0 = *glossary;
    if let Some(label) = crate::rst::directive::declared_text(t, a, e) {
        proof {
            lemma_string_views_push(anchors@, label);
        }
        anchors.push(label);
    }
    let ghost after_label = string_views(anchors@);
    if in_directive {
        if let Some(name) = name_option_of(t, a, e) {
            proof {
                lemma_string_views_push(anchors@, name);
            }
            anchors.push(name);
        }
    }
    let ghost after_name = string_views(anchors@);
    if let Some(term) = glossary_term(t, a, e, ind, glossary) {
        proof {
            lemma_string_views_push(anchors@, term);
        }
        anchors.push(term);
    }
    let ts = skip_spaces(t, a, e);
    let n = directive_name_at(t, ts, e);
    if named_at(t, n, "glossary") {
        *glossary = Some((ind, None));
    }
    proof {
        let (names, g) = declare_step(t@, a as int, e as int, ind, in_directive, g0);
        assert(string_views(anchors@) =~= start + names);
    }
}


// ---------------------------------------------------------------------------
// `literalinclude` selections

pub open spec fn is_digit(c: char) -> bool {
    '0' <= c && c <= '9'
}

pub open spec fn digit_value(c: char) -> nat {
    ((c as u32) - ('0' as u32)) as nat
}

/// The number the digits `[a, b)` spell.
pub open spec fn digits_value(t: Seq<char>, a: int, b: int) -> nat
    decreases b - a,
{
    if b <= a {
        0
    } else {
        digits_value(t, a, b - 1) * 10 + digit_value(t[b - 1])
    }
}

/// What `u64::from_str` reads from `[a, b)`: an optional `+`, then one or
/// more digits spelling a number that fits.
pub open spec fn parsed_u64(t: Seq<char>, a: int, b: int) -> Option<u64> {
    let d = if a < b && t[a] == '+' {
        a + 1
    } else {
        a
    };
    if d < b && (forall|k: int| d <= k < b ==> #[trigger] is_digit(t[k])) && digits_value(t, d, b)
        <= u64::MAX {
        Some(digits_value(t, d, b) as u64)
    } else {
        None
    }
}

proof fn lemma_digits_grow(t: Seq<char>, a: int, k: int, b: int)
    requires
        a <= k <= b,
        forall|m: int| a <= m < b ==> #[trigger] is_digit(t[m]),
    ensures
        digits_value(t, a, k) <= digits_value(t, a, b),
    decreases b - k,
{
    if k < b {
        lemma_digits_grow(t, a, k + 1, b);
    }
}

/// Parses `[a, b)` as `u64::from_str` does: an optional `+` and digits that
/// fit.
pub fn parse_u64(t: &[char], a: usize, b: usize) -> (r: Option<u64>)
    requires
        a <= b <= t@.len(),
    ensures
        r == parsed_u64(t@, a as int, b as int),
{
    let d = if a < b && t[a] == '+' {
        a + 1
    } else {
        a
    };
    if d >= b {
        return None;
    }
    let mut k = d;
    let mut value: u64 = 0;
    while k < b
        invariant
            a <= d <= k <= b <= t@.len(),
            d < b,
            d == (if a < b && t@[a as int] == '+' {
                a + 1
            } else {
                a as int
            }),
            forall|m: int| d <= m < k ==> #[trigger] is_digit(t@[m]),
            value == digits_value(t@, d as int, k as int),
        decreases b - k,
    {
        let c = t[k];
        if !('0' <= c && c <= '9') {
            assert(!is_digit(t@[k as int]));
            return None;
        }
        let v = (c as u32 - '0' as u32) as u64;
        if value > (u64::MAX - v) / 10 {
            proof {
                assert(digits_value(t@, d as int, k + 1) == value * 10 + v);
                assert(value * 10 + v > u64::MAX) by (nonlinear_arith)
                    requires
                        value > (u64::MAX - v) / 10,
                        v <= 9,
                ;
                if forall|m: int| d <= m < b ==> #[trigger] is_digit(t@[m]) {
                    lemma_digits_grow(t@, d as int, k + 1, b as int);
                }
            }
            return None;
        }
        value = value * 10 + v;
        k = k + 1;
    }
    Some(value)
}

/// The digit that spells `d`, below ten.
pub open spec fn digit_char(d: nat) -> char {
    if d == 0 {
        '0'
    } else if d == 1 {
        '1'
    } else if d == 2 {
        '2'
    } else if d == 3 {
        '3'
    } else if d == 4 {
        '4'
    } else if d == 5 {
        '5'
    } else if d == 6 {
        '6'
    } else if d == 7 {
        '7'
    } else if d == 8 {
        '8'
    } else {
        '9'
    }
}

/// The decimal spelling of `n`.
pub open spec fn decimal(n: nat) -> Seq<char>
    decreases n,
{
    if n < 10 {
        seq![digit_char(n)]
    } else {
        decimal(n / 10).push(digit_char(n % 10))
    }
}

fn digit_of(d: u64) -> (c: char)
    requires
        d < 10,
    ensures
        c == digit_char(d as nat),
{
    if d == 0 {
        '0'
    } else if d == 1 {
        '1'
    } else if d == 2 {
        '2'
    } else if d == 3 {
        '3'
    } else if d == 4 {
        '4'
    } else if d == 5 {
        '5'
    } else if d == 6 {
        '6'
    } else if d == 7 {
        '7'
    } else if d == 8 {
        '8'
    } else {
        '9'
    }
}

pub(crate) fn push_decimal(s: &mut String, n: u64)
    ensures
        final(s)@ == old(s)@ + decimal(n as nat),
    decreases n,
{
    if n >= 10 {
        push_decimal(s, n / 10);
    }
    s.push(digit_of(n % 10));
    assert(n < 10 ==> old(s)@ + decimal(n as nat) =~= old(s)@.push(digit_char(n as nat)));
}


/// One `start-end` part of a `:lines:` spec: its start (an empty one is the
/// first line), then its end (`None` for an empty, open end); `None` when a
/// number fails to parse.
pub open spec fn lines_part(t: Seq<char>, i: int, c: int) -> Option<(u64, Option<u64>)> {
    let d = find(t, i, c, '-');
    let (s0, s1, e0, e1) = if d < c {
        (i, d, d + 1, c)
    } else {
        (i, c, i, c)
    };
    let start = if blank(t, s0, s1) {
        Some(1u64)
    } else {
        parsed_u64(t, trim_lo(t, s0, s1), trim_hi(t, s0, s1))
    };
    let end = if blank(t, e0, e1) {
        Some(None)
    } else {
        match parsed_u64(t, trim_lo(t, e0, e1), trim_hi(t, e0, e1)) {
            Some(v) => Some(Some(v)),
            None => None,
        }
    };
    match (start, end) {
        (Some(s), Some(e)) => Some((s, e)),
        _ => None,
    }
}

/// The comma-separated parts of a `:lines:` spec from `i` on, folded into the
/// least start and, while every end is closed, the greatest end.
pub open spec fn lines_fold(
    t: Seq<char>,
    i: int,
    hi: int,
    first: Option<u64>,
    last: Option<u64>,
) -> Option<(Option<u64>, Option<u64>)>
    decreases hi - i,
{
    if i > hi {
        None
    } else {
        let c = find(t, i, hi, ',');
        match lines_part(t, i, c) {
            Some((s, e)) => {
                let f = Some(
                    match first {
                        Some(h) => if h < s {
                            h
                        } else {
                            s
                        },
                        None => s,
                    },
                );
                let l = match (last, e) {
                    (Some(h), Some(v)) => Some(
                        if h > v {
                            h
                        } else {
                            v
                        },
                    ),
                    _ => None,
                };
                if i <= c < hi {
                    lines_fold(t, c + 1, hi, f, l)
                } else {
                    Some((f, l))
                }
            },
            None => None,
        }
    }
}

pub open spec fn pyobject_name() -> Seq<char> {
    seq![':', 'p', 'y', 'o', 'b', 'j', 'e', 'c', 't', ':']
}

pub open spec fn lines_name() -> Seq<char> {
    seq![':', 'l', 'i', 'n', 'e', 's', ':']
}

/// The fragment spelling of a line selection: `L5-L8`, or `L5` where it runs
/// on to the end.
pub open spec fn line_fragment(first: u64, last: Option<u64>) -> Seq<char> {
    seq!['L'] + decimal(first as nat) + match last {
        Some(v) => if v > first {
            seq!['-', 'L'] + decimal(v as nat)
        } else {
            Seq::empty()
        },
        None => Seq::empty(),
    }
}

/// The part of a file a `literalinclude` option on the line `[a, e)`
/// selects, as a fragment: a `:lines:` spec as the span from its first to its
/// last selected line, and a `:pyobject:` as the object's name.
pub open spec fn selection(t: Seq<char>, a: int, e: int) -> Option<Seq<char>> {
    let x0 = trim_lo(t, a, e);
    let x1 = trim_hi(t, a, e);
    if starts(t, x0, x1, pyobject_name()) {
        let n0 = trim_lo(t, x0 + 10, x1);
        let n1 = trim_hi(t, x0 + 10, x1);
        if n0 < n1 && !has_space(t, n0, n1) {
            Some(t.subrange(n0, n1))
        } else {
            None
        }
    } else if starts(t, x0, x1, lines_name()) {
        match lines_fold(t, x0 + 7, x1, None, Some(0u64)) {
            Some((Some(f), l)) => Some(line_fragment(f, l)),
            _ => None,
        }
    } else {
        None
    }
}

fn lines_part_at(t: &[char], i: usize, c: usize) -> (r: Option<(u64, Option<u64>)>)
    requires
        i <= c <= t@.len(),
    ensures
        r == lines_part(t@, i as int, c as int),
{
    let d = find_char(t, i, c, '-');
    proof {
        lemma_find(t@, i as int, c as int, '-');
    }
    let (s0, s1, e0, e1) = if d < c {
        (i, d, d + 1, c)
    } else {
        (i, c, i, c)
    };
    proof {
        lemma_trim(t@, s0 as int, s1 as int);
        lemma_trim(t@, e0 as int, e1 as int);
    }
    let x0 = skip_spaces(t, s0, s1);
    let start = if x0 >= s1 {
        Some(1u64)
    } else {
        let x1 = back_spaces(t, x0, s1);
        parse_u64(t, x0, x1)
    };
    let y0 = skip_spaces(t, e0, e1);
    let end = if y0 >= e1 {
        Some(None)
    } else {
        let y1 = back_spaces(t, y0, e1);
        match parse_u64(t, y0, y1) {
            Some(v) => Some(Some(v)),
            None => None,
        }
    };
    match (start, end) {
        (Some(s), Some(e)) => Some((s, e)),
        _ => None,
    }
}

fn lines_fold_at(t: &[char], i: usize, hi: usize) -> (r: Option<(Option<u64>, Option<u64>)>)
    requires
        i <= hi <= t@.len(),
    ensures
        r == lines_fold(t@, i as int, hi as int, None, Some(0u64)),
{
    let mut k = i;
    let mut first: Option<u64> = None;
    let mut last: Option<u64> = Some(0);
    loop
        invariant
            i <= k <= hi <= t@.len(),
            lines_fold(t@, k as int, hi as int, first, last) == lines_fold(
                t@,
                i as int,
                hi as int,
                None,
                Some(0u64),
            ),
        decreases hi - k,
    {
        let c = find_char(t, k, hi, ',');
        proof {
            lemma_find(t@, k as int, hi as int, ',');
        }
        match lines_part_at(t, k, c) {
            Some((s, e)) => {
                first = Some(
                    match first {
                        Some(h) => if h < s {
                            h
                        } else {
                            s
                        },
                        None => s,
                    },
                );
                last = match (last, e) {
                    (Some(h), Some(v)) => Some(
                        if h > v {
                            h
                        } else {
                            v
                        },
                    ),
                    _ => None,
                };
                if c < hi {
                    k = c + 1;
                } else {
                    return Some((first, last));
                }
            },
            None => {
                return None;
            },
        }
    }
}

pub fn include_selection(t: &[char], a: usize, e: usize) -> (r: Option<String>)
    requires
        a <= e <= t@.len(),
    ensures
        match r {
            Some(s) => selection(t@, a as int, e as int) == Some(s@),
            None => selection(t@, a as int, e as int) is None,
        },
{
    proof {
        lemma_trim(t@, a as int, e as int);
    }
    let x0 = skip_spaces(t, a, e);
    let x1 = back_spaces(t, x0, e);
    let pyobject = [':', 'p', 'y', 'o', 'b', 'j', 'e', 'c', 't', ':'];
    let lines = [':', 'l', 'i', 'n', 'e', 's', ':'];
    assert(pyobject@ == pyobject_name());
    assert(lines@ == lines_name());
    if starts_at(t, x0, x1, pyobject.as_slice()) {
        proof {
            lemma_trim(t@, x0 + 10, x1 as int);
        }
        let n0 = skip_spaces(t, x0 + 10, x1);
        let n1 = back_spaces(t, n0, x1);
        if n0 < n1 && !any_space(t, n0, n1) {
            return Some(crate::text::text_of(t, n0, n1));
        }
        return None;
    }
    if !starts_at(t, x0, x1, lines.as_slice()) {
        return None;
    }
    match lines_fold_at(t, x0 + 7, x1) {
        Some((Some(f), l)) => {
            let mut s = String::new();
            s.push('L');
            push_decimal(&mut s, f);
            match l {
                Some(v) => {
                    if v > f {
                        s.push('-');
                        s.push('L');
                        push_decimal(&mut s, v);
                    }
                },
                None => {},
            }
            assert(s@ =~= line_fragment(f, l));
            Some(s)
        },
        _ => None,
    }
}


// ---------------------------------------------------------------------------
// Inline markup across lines

/// The backticks in `[a, b)`.
pub open spec fn count_ticks(t: Seq<char>, a: int, b: int) -> nat
    decreases b - a,
{
    if b <= a {
        0
    } else {
        count_ticks(t, a, b - 1) + if t[b - 1] == '`' {
            1nat
        } else {
            0nat
        }
    }
}

fn count_ticks_at(t: &[char], a: usize, b: usize) -> (n: usize)
    requires
        a <= b <= t@.len(),
    ensures
        n == count_ticks(t@, a as int, b as int),
        n <= b - a,
{
    let mut k = a;
    let mut n: usize = 0;
    while k < b
        invariant
            a <= k <= b <= t@.len(),
            n == count_ticks(t@, a as int, k as int),
            n <= k - a,
        decreases b - k,
    {
        if t[k] == '`' {
            n = n + 1;
        }
        k = k + 1;
    }
    n
}

/// Reads at most eight lines `[s, hi)` on from a line's start, counting
/// backticks, and stops at a blank line or once they balance: the backticks
/// counted and where the last line taken ends.
pub open spec fn wrap_scan(t: Seq<char>, s: int, hi: int, taken: nat, ticks: nat, end: int) -> (
    nat,
    int,
)
    decreases 8 - taken,
{
    if taken >= 8 || s >= hi {
        (ticks, end)
    } else {
        let e = find(t, s, hi, '\n');
        let nx = if e < hi {
            e + 1
        } else {
            hi
        };
        if taken > 0 && (ticks % 2 == 0 || blank(t, s, nx)) {
            (ticks, end)
        } else {
            wrap_scan(t, nx, hi, taken + 1, ticks + count_ticks(t, s, nx), nx)
        }
    }
}

/// The end of the text a line `[from, le)` of the body ending at `hi` reads
/// for inline markup: the line, or when its backticks do not balance, the line
/// and as many of the following lines as close the role or link it opens, up
/// to a blank line or eight lines in all. Docutils reads inline markup across
/// line breaks.
pub open spec fn wrapped_end(t: Seq<char>, from: int, le: int, hi: int) -> int {
    let (ticks, end) = wrap_scan(t, from, hi, 0, 0, from);
    if end > le && end - le > 1 && ticks % 2 == 0 {
        end
    } else {
        le
    }
}

proof fn lemma_wrap_scan(t: Seq<char>, s: int, hi: int, taken: nat, ticks: nat, end: int)
    requires
        0 <= s <= hi <= t.len(),
        end <= hi,
    ensures
        wrap_scan(t, s, hi, taken, ticks, end).1 <= hi,
        end >= 0 ==> wrap_scan(t, s, hi, taken, ticks, end).1 >= 0,
    decreases 8 - taken,
{
    if !(taken >= 8 || s >= hi) {
        lemma_find(t, s, hi, '\n');
        let e = find(t, s, hi, '\n');
        let nx = if e < hi {
            e + 1
        } else {
            hi
        };
        if !(taken > 0 && (ticks % 2 == 0 || blank(t, s, nx))) {
            lemma_wrap_scan(t, nx, hi, taken + 1, ticks + count_ticks(t, s, nx), nx);
        }
    }
}

pub fn wrapped(t: &[char], from: usize, le: usize, hi: usize) -> (end: usize)
    requires
        from <= le <= hi <= t@.len(),
    ensures
        end == wrapped_end(t@, from as int, le as int, hi as int),
        end <= hi,
{
    let mut s = from;
    let mut taken: usize = 0;
    let mut ticks: usize = 0;
    let mut end = from;
    proof {
        lemma_wrap_scan(t@, from as int, hi as int, 0, 0, from as int);
    }
    let mut stop = false;
    while !stop && taken < 8 && s < hi
        invariant
            from <= s <= hi <= t@.len(),
            end <= hi,
            taken <= 8,
            ticks <= s,
            wrap_scan(t@, s as int, hi as int, taken as nat, ticks as nat, end as int)
                == wrap_scan(t@, from as int, hi as int, 0, 0, from as int),
            stop ==> wrap_scan(t@, s as int, hi as int, taken as nat, ticks as nat, end as int)
                == (ticks as nat, end as int),
        decreases 8 - taken, if stop {
            0int
        } else {
            1int
        },
    {
        let e = find_char(t, s, hi, '\n');
        proof {
            lemma_find(t@, s as int, hi as int, '\n');
        }
        let nx = if e < hi {
            e + 1
        } else {
            hi
        };
        if taken > 0 && (ticks % 2 == 0 || skip_spaces(t, s, nx) >= nx) {
            stop = true;
        } else {
            let n = count_ticks_at(t, s, nx);
            ticks = ticks + n;
            end = nx;
            s = nx;
            taken = taken + 1;
        }
    }
    if end > le && end - le > 1 && ticks % 2 == 0 {
        end
    } else {
        le
    }
}

} // verus!
