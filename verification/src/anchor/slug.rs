//! The slug one renderer rule builds from a heading's text, stage by stage:
//! typography, normalization, the leading run of non-letters, trimming,
//! folding, case, the filter, the separators, the edges and the prefixes.

use super::{AnchorRule, Case, Edges, Fold, Head, Keep, Normalize, Runs, Separators, Trim, Typography};
use crate::text::{
    back_space, back_spaces, chars_of, is_space, lemma_back_space, lemma_skip_space, skip_space,
    skip_spaces, space, text_of,
};
use crate::unicode::{
    alphanumeric, category_code, general_category, is_alphanumeric, lowercase, nfc, nfkd,
    simple_lower, simple_lowercase, to_lowercase, to_nfc, to_nfkd,
};
use vstd::prelude::*;

verus! {

/// The dash and ellipsis rewrites pulldown-cmark performs before mdBook reads
/// a heading: `---` is an em dash, `--` an en dash, `...` an ellipsis.
pub open spec fn smart_spec(s: Seq<char>) -> Seq<char>
    decreases s.len(),
{
    if s.len() == 0 {
        s
    } else if s.len() >= 3 && s[0] == '-' && s[1] == '-' && s[2] == '-' {
        seq!['\u{2014}'] + smart_spec(s.skip(3))
    } else if s.len() >= 2 && s[0] == '-' && s[1] == '-' {
        seq!['\u{2013}'] + smart_spec(s.skip(2))
    } else if s.len() >= 3 && s[0] == '.' && s[1] == '.' && s[2] == '.' {
        seq!['\u{2026}'] + smart_spec(s.skip(3))
    } else {
        seq![s[0]] + smart_spec(s.skip(1))
    }
}

/// The first character of a text and the rest of it.
pub fn split_first(text: &[char]) -> (r: Option<(char, &[char])>)
    ensures
        text@.len() == 0 ==> r is None,
        text@.len() > 0 ==> (r matches Some((c, rest)) && c == text@[0] && rest@ == text@.skip(1)),
{
    if text.len() == 0 {
        return None;
    }
    let rest = vstd::slice::slice_subrange(text, 1, text.len());
    assert(rest@ =~= text@.skip(1));
    Some((text[0], rest))
}

/// The smart-punctuation rewrite of a character sequence.
pub fn smart_chars(t: &[char]) -> (r: Vec<char>)
    ensures
        r@ == smart_spec(t@),
{
    let mut out: Vec<char> = Vec::new();
    let mut i: usize = 0;
    assert(t@.skip(0) =~= t@);
    while i < t.len()
        invariant
            i <= t@.len(),
            out@ + smart_spec(t@.skip(i as int)) == smart_spec(t@),
        decreases t@.len() - i,
    {
        let ghost rest = t@.skip(i as int);
        let ghost before = out@;
        if t.len() - i >= 3 && t[i] == '-' && t[i + 1] == '-' && t[i + 2] == '-' {
            assert(rest.skip(3) =~= t@.skip(i + 3));
            out.push('\u{2014}');
            assert(out@ + smart_spec(t@.skip(i + 3)) =~= before + smart_spec(rest));
            i = i + 3;
        } else if t.len() - i >= 2 && t[i] == '-' && t[i + 1] == '-' {
            assert(rest.skip(2) =~= t@.skip(i + 2));
            out.push('\u{2013}');
            assert(out@ + smart_spec(t@.skip(i + 2)) =~= before + smart_spec(rest));
            i = i + 2;
        } else if t.len() - i >= 3 && t[i] == '.' && t[i + 1] == '.' && t[i + 2] == '.' {
            assert(rest.skip(3) =~= t@.skip(i + 3));
            out.push('\u{2026}');
            assert(out@ + smart_spec(t@.skip(i + 3)) =~= before + smart_spec(rest));
            i = i + 3;
        } else {
            let tail = vstd::slice::slice_subrange(t, i, t.len());
            assert(tail@ =~= rest);
            if let Some((first, _)) = split_first(tail) {
                out.push(first);
            }
            assert(rest.skip(1) =~= t@.skip(i + 1));
            assert(out@ + smart_spec(t@.skip(i + 1)) =~= before + smart_spec(rest));
            i = i + 1;
        }
    }
    assert(t@.skip(t@.len() as int) =~= Seq::<char>::empty());
    out
}

/// The dash and ellipsis rewrites pulldown-cmark performs before mdBook reads
/// a heading. Its quote rewrites are unobservable here: every rule either
/// drops both spellings or treats both as separators.
pub fn smart(text: &str) -> (r: String)
    ensures
        r@ == smart_spec(text@),
{
    let t = chars_of(text);
    let out = smart_chars(t.as_slice());
    text_of(out.as_slice(), 0, out.len())
}

/// An ASCII letter.
pub open spec fn ascii_alpha(c: char) -> bool {
    ('a' <= c && c <= 'z') || ('A' <= c && c <= 'Z')
}

/// An ASCII letter or digit.
pub open spec fn ascii_alnum(c: char) -> bool {
    ascii_alpha(c) || ('0' <= c && c <= '9')
}

/// The punctuation mdit-vue's slugify turns into a separator.
pub open spec fn mdit_punctuation(c: char) -> bool {
    ||| c == '~' || c == '`' || c == '!' || c == '@' || c == '#' || c == '$' || c == '%'
    ||| c == '^' || c == '&' || c == '*' || c == '(' || c == ')' || c == '_' || c == '+'
    ||| c == '=' || c == '[' || c == ']' || c == '{' || c == '}' || c == '|' || c == '\\'
    ||| c == ';' || c == ':' || c == '"' || c == '\'' || c == '\u{201C}' || c == '\u{201D}'
    ||| c == '\u{2018}' || c == '\u{2019}' || c == '<' || c == '>' || c == ',' || c == '.'
    ||| c == '?' || c == '/'
}

/// Whether a renderer turns `c` into a separator.
pub open spec fn separates(separators: Separators, c: char) -> bool {
    match separators {
        Separators::Space => c == ' ',
        Separators::Whitespace => is_space(c),
        Separators::WhitespaceUnderscore => is_space(c) || c == '_',
        Separators::NonAlphanumeric => !ascii_alnum(c),
        Separators::MditVuePunctuation => is_space(c) || mdit_punctuation(c),
    }
}

fn ascii_alnum_char(c: char) -> (b: bool)
    ensures
        b == ascii_alnum(c),
{
    ('a' <= c && c <= 'z') || ('A' <= c && c <= 'Z') || ('0' <= c && c <= '9')
}

/// Whether a renderer turns `ch` into a separator.
pub fn is_separator(separators: Separators, ch: char) -> (b: bool)
    ensures
        b == separates(separators, ch),
{
    match separators {
        Separators::Space => ch == ' ',
        Separators::Whitespace => space(ch),
        Separators::WhitespaceUnderscore => space(ch) || ch == '_',
        Separators::NonAlphanumeric => !ascii_alnum_char(ch),
        Separators::MditVuePunctuation => {
            space(ch) || ch == '~' || ch == '`' || ch == '!' || ch == '@' || ch == '#' || ch
                == '$' || ch == '%' || ch == '^' || ch == '&' || ch == '*' || ch == '(' || ch
                == ')' || ch == '_' || ch == '+' || ch == '=' || ch == '[' || ch == ']' || ch
                == '{' || ch == '}' || ch == '|' || ch == '\\' || ch == ';' || ch == ':' || ch
                == '"' || ch == '\'' || ch == '\u{201C}' || ch == '\u{201D}' || ch == '\u{2018}'
                || ch == '\u{2019}' || ch == '<' || ch == '>' || ch == ',' || ch == '.' || ch
                == '?' || ch == '/'
        },
    }
}

/// The letter a character's general category code begins with: `L` for the
/// five letter categories, `M` for the three marks, `N` for the three numbers.
pub open spec fn major(c: char) -> char {
    category_code(c)[0]
}

/// A letter or a number by general category.
pub open spec fn word(c: char) -> bool {
    major(c) == 'L' || major(c) == 'N'
}

/// Whether a renderer carries `c` into the identity.
pub open spec fn kept(keep: Keep, c: char) -> bool {
    match keep {
        Keep::LetterMarkNumberConnector => word(c) || major(c) == 'M' || category_code(c)
            =~= seq!['P', 'c'],
        Keep::LetterNumberUnderscore => word(c) || c == '_',
        Keep::AlphabeticNumericUnderscore => alphanumeric(c) || c == '_',
        Keep::AsciiAlphanumeric => ascii_alnum(c),
        Keep::AsciidoctorId => ascii_alnum(c) || c == '_' || c == '-' || c == '.',
        Keep::AnythingButC0 => (c as u32) > 0x1f,
    }
}

/// Whether a renderer carries `ch` into the identity.
pub fn is_kept(keep: Keep, ch: char) -> (b: bool)
    ensures
        b == kept(keep, ch),
{
    match keep {
        Keep::LetterMarkNumberConnector => {
            let code = general_category(ch);
            let first = code.get_char(0);
            let second = code.get_char(1);
            proof {
                if category_code(ch) =~= seq!['P', 'c'] {
                    assert(category_code(ch)[1] == 'c');
                }
            }
            let connector = first == 'P' && second == 'c';
            assert(connector == (category_code(ch) =~= seq!['P', 'c']));
            first == 'L' || first == 'N' || first == 'M' || connector
        },
        Keep::LetterNumberUnderscore => {
            let code = general_category(ch);
            let first = code.get_char(0);
            first == 'L' || first == 'N' || ch == '_'
        },
        Keep::AlphabeticNumericUnderscore => is_alphanumeric(ch) || ch == '_',
        Keep::AsciiAlphanumeric => ascii_alnum_char(ch),
        Keep::AsciidoctorId => ascii_alnum_char(ch) || ch == '_' || ch == '-' || ch == '.',
        Keep::AnythingButC0 => (ch as u32) > 0x1f,
    }
}

/// The text after the typography stage.
pub open spec fn typeset(rule: AnchorRule, s: Seq<char>) -> Seq<char> {
    match rule.typography {
        Typography::SmartPunctuation => smart_spec(s),
        Typography::Plain => s,
    }
}

/// The text after the normalization stage.
pub open spec fn normalized(rule: AnchorRule, s: Seq<char>) -> Seq<char> {
    match rule.normalize {
        Normalize::AsWritten => s,
        Normalize::Nfc => nfc(s),
        Normalize::Nfkd => nfkd(s),
    }
}

/// The first index at or after `i` holding an ASCII letter, or the length.
pub open spec fn letter_start(s: Seq<char>, i: int) -> int
    decreases s.len() - i,
{
    if i < s.len() && !ascii_alpha(s[i]) {
        letter_start(s, i + 1)
    } else {
        i
    }
}

/// The text after the leading run of non-letters is dropped, where the rule
/// drops it.
pub open spec fn headed(rule: AnchorRule, s: Seq<char>) -> Seq<char> {
    match rule.head {
        Head::StripNonLetter => s.skip(letter_start(s, 0)),
        Head::AsWritten => s,
    }
}

/// The text without the whitespace at either end.
pub open spec fn trimmed(s: Seq<char>) -> Seq<char> {
    let lo = skip_space(s, 0, s.len() as int);
    s.subrange(lo, back_space(s, lo, s.len() as int))
}

/// Whether the fold stage keeps `c`.
pub open spec fn fold_keeps(fold: Fold, c: char) -> bool {
    match fold {
        Fold::AsWritten => true,
        Fold::AsciiIgnore => (c as u32) < 0x80,
        Fold::LatinMarks => !(0x300 <= (c as u32) && (c as u32) <= 0x36f),
    }
}

/// The text after the fold stage: the characters it keeps, in order.
pub open spec fn folded(fold: Fold, s: Seq<char>) -> Seq<char>
    decreases s.len(),
{
    if s.len() == 0 {
        s
    } else if fold_keeps(fold, s.last()) {
        folded(fold, s.drop_last()).push(s.last())
    } else {
        folded(fold, s.drop_last())
    }
}

/// The text after the whole-string case stage.
pub open spec fn cased(rule: AnchorRule, s: Seq<char>) -> Seq<char> {
    match rule.case {
        Case::FullBeforeFilter => lowercase(s),
        Case::SimpleAfterFilter => s,
    }
}

/// Whether `c` is a separator under a rule: its own separator character or
/// one its separator class names.
pub open spec fn separator_under(rule: AnchorRule, c: char) -> bool {
    c == rule.separator || separates(rule.separators, c)
}

/// The text after the filter: separators stay, kept characters stay (lowered
/// one by one where the rule lowers after the filter), the rest goes.
pub open spec fn retained(rule: AnchorRule, s: Seq<char>) -> Seq<char>
    decreases s.len(),
{
    if s.len() == 0 {
        s
    } else {
        let p = retained(rule, s.drop_last());
        let c = s.last();
        if separator_under(rule, c) {
            p.push(c)
        } else if kept(rule.keep, c) {
            match rule.case {
                Case::FullBeforeFilter => p.push(c),
                Case::SimpleAfterFilter => p.push(simple_lowercase(c)),
            }
        } else {
            p
        }
    }
}

/// The text after each separator becomes the rule's separator character, a
/// run of them becoming one where the rule collapses runs.
pub open spec fn joined(rule: AnchorRule, s: Seq<char>) -> Seq<char>
    decreases s.len(),
{
    if s.len() == 0 {
        s
    } else {
        let p = joined(rule, s.drop_last());
        let c = s.last();
        if separator_under(rule, c) {
            if rule.runs == Runs::Collapse && p.len() > 0 && p.last() == rule.separator {
                p
            } else {
                p.push(rule.separator)
            }
        } else {
            p.push(c)
        }
    }
}

/// The first index at or after `i`, before `hi`, not holding `c`; `hi` when
/// there is none.
pub open spec fn skip_char(s: Seq<char>, i: int, hi: int, c: char) -> int
    decreases hi - i,
{
    if i < hi && s[i] == c {
        skip_char(s, i + 1, hi, c)
    } else {
        i
    }
}

/// The end of `[lo, j)` once its trailing run of `c` is dropped.
pub open spec fn back_char(s: Seq<char>, lo: int, j: int, c: char) -> int
    decreases j - lo,
{
    if lo < j && s[j - 1] == c {
        back_char(s, lo, j - 1, c)
    } else {
        j
    }
}

/// The text after the edge stage.
pub open spec fn edged(rule: AnchorRule, s: Seq<char>) -> Seq<char> {
    let sep = rule.separator;
    match rule.edges {
        Edges::Trim => {
            let lo = skip_char(s, 0, s.len() as int, sep);
            s.subrange(lo, back_char(s, lo, s.len() as int, sep))
        },
        Edges::TrimEnd => s.subrange(0, back_char(s, 0, s.len() as int, sep)),
        Edges::AsWritten => s,
    }
}

/// The text after the prefix for an identity that would start with a digit.
pub open spec fn digit_prefixed(rule: AnchorRule, s: Seq<char>) -> Seq<char> {
    match rule.leading_digit_prefix {
        Some(p) => if s.len() > 0 && '0' <= s[0] && s[0] <= '9' {
            p@ + s
        } else {
            s
        },
        None => s,
    }
}

/// The text after the rule's prefix, which a non-empty identity takes.
pub open spec fn prefixed(rule: AnchorRule, s: Seq<char>) -> Seq<char> {
    match rule.prefix {
        Some(p) => if s.len() > 0 {
            p@ + s
        } else {
            s
        },
        None => s,
    }
}

/// The identity one rule builds from a heading's text.
pub open spec fn slug_of(rule: AnchorRule, text: Seq<char>) -> Seq<char> {
    let normalized = normalized(rule, typeset(rule, text));
    let stripped = headed(rule, normalized);
    let trimmed_before = if rule.trim == Trim::Before {
        trimmed(stripped)
    } else {
        stripped
    };
    let cased = cased(rule, folded(rule.fold, trimmed_before));
    let kept = retained(rule, cased);
    let trimmed_after = if rule.trim == Trim::AfterRemoval {
        trimmed(kept)
    } else {
        kept
    };
    prefixed(rule, digit_prefixed(rule, edged(rule, joined(rule, trimmed_after))))
}

/// A hyphen is a separator under every rule of the table, or survives the
/// filter: either because it is the rule's separator, or because the rule
/// keeps it.
pub proof fn lemma_hyphen_survives_every_rule(i: int)
    requires
        0 <= i < super::rule_table().len(),
    ensures
        separator_under(super::rule_table()[i], '-') || kept(super::rule_table()[i].keep, '-'),
{
}

proof fn lemma_skip_char(s: Seq<char>, i: int, hi: int, c: char)
    requires
        0 <= i <= hi <= s.len(),
    ensures
        i <= skip_char(s, i, hi, c) <= hi,
        skip_char(s, i, hi, c) < hi ==> s[skip_char(s, i, hi, c)] != c,
    decreases hi - i,
{
    if i < hi && s[i] == c {
        lemma_skip_char(s, i + 1, hi, c);
    }
}

proof fn lemma_back_char(s: Seq<char>, lo: int, j: int, c: char)
    requires
        0 <= lo <= j <= s.len(),
    ensures
        lo <= back_char(s, lo, j, c) <= j,
        back_char(s, lo, j, c) > lo ==> s[back_char(s, lo, j, c) - 1] != c,
    decreases j - lo,
{
    if lo < j && s[j - 1] == c {
        lemma_back_char(s, lo, j - 1, c);
    }
}

/// Whether a prefix the rule may put in front of an identity begins with `c`.
pub open spec fn prefix_begins_with(rule: AnchorRule, c: char) -> bool {
    ||| (match rule.prefix {
        Some(p) => p@.len() > 0 && p@[0] == c,
        None => false,
    })
    ||| (match rule.leading_digit_prefix {
        Some(p) => p@.len() > 0 && p@[0] == c,
        None => false,
    })
}

/// Under a rule that trims its separator at both edges, an identity never
/// ends with the separator, and begins with it only where a prefix the rule
/// adds in front begins with it.
pub proof fn lemma_trimmed_identity_has_clean_edges(rule: AnchorRule, text: Seq<char>)
    requires
        rule.edges == Edges::Trim,
    ensures
        slug_of(rule, text).len() == 0 || (slug_of(rule, text).last() != rule.separator && (
        slug_of(rule, text)[0] != rule.separator || prefix_begins_with(rule, rule.separator))),
{
    let normalized = normalized(rule, typeset(rule, text));
    let stripped = headed(rule, normalized);
    let trimmed_before = if rule.trim == Trim::Before { trimmed(stripped) } else { stripped };
    let cased = cased(rule, folded(rule.fold, trimmed_before));
    let kept = retained(rule, cased);
    let trimmed_after = if rule.trim == Trim::AfterRemoval { trimmed(kept) } else { kept };
    let j = joined(rule, trimmed_after);
    let sep = rule.separator;
    lemma_skip_char(j, 0, j.len() as int, sep);
    let lo = skip_char(j, 0, j.len() as int, sep);
    lemma_back_char(j, lo, j.len() as int, sep);
    let hi = back_char(j, lo, j.len() as int, sep);
    let e = edged(rule, j);
    assert(e == j.subrange(lo, hi));
    if e.len() > 0 {
        assert(e[0] == j[lo]);
        assert(e.last() == j[hi - 1]);
    }
    let d = digit_prefixed(rule, e);
    assert(d.len() == 0 || (d.last() != sep && (d[0] != sep || prefix_begins_with(rule, sep)))) by {
        match rule.leading_digit_prefix {
            Some(p) => if e.len() > 0 && '0' <= e[0] && e[0] <= '9' {
                assert(d == p@ + e);
                assert(d.last() == e.last());
                if p@.len() > 0 {
                    assert(d[0] == p@[0]);
                } else {
                    assert(d[0] == e[0]);
                }
            },
            None => {},
        }
    }
    let r = prefixed(rule, d);
    assert(r == slug_of(rule, text));
    match rule.prefix {
        Some(p) => if d.len() > 0 {
            assert(r == p@ + d);
            assert(r.last() == d.last());
            if p@.len() > 0 {
                assert(r[0] == p@[0]);
            } else {
                assert(r[0] == d[0]);
            }
        },
        None => {},
    }
}

/// Every rule of the table that trims its separator at both edges publishes
/// identities that neither begin nor end with the separator.
pub proof fn lemma_table_trimmed_identities(i: int, text: Seq<char>)
    requires
        0 <= i < super::rule_table().len(),
        super::rule_table()[i].edges == Edges::Trim,
    ensures
        slug_of(super::rule_table()[i], text).len() == 0 || (slug_of(super::rule_table()[i], text)[0]
            != super::rule_table()[i].separator && slug_of(super::rule_table()[i], text).last()
            != super::rule_table()[i].separator),
{
    let rule = super::rule_table()[i];
    lemma_trimmed_identity_has_clean_edges(rule, text);
    reveal_strlit("_");
    assert(!prefix_begins_with(rule, rule.separator));
}

/// Whether two separators stand side by side somewhere in `s`.
pub open spec fn doubled(s: Seq<char>, sep: char) -> bool {
    exists|k: int| 0 <= k && k + 1 < s.len() && #[trigger] s[k] == sep && s[k + 1] == sep
}

proof fn lemma_joined_collapsed(rule: AnchorRule, s: Seq<char>)
    requires
        rule.runs == Runs::Collapse,
    ensures
        !doubled(joined(rule, s), rule.separator),
    decreases s.len(),
{
    if s.len() > 0 {
        let p = joined(rule, s.drop_last());
        lemma_joined_collapsed(rule, s.drop_last());
        let r = joined(rule, s);
        let sep = rule.separator;
        if r != p {
            assert(r == p.push(r.last()));
            assert forall|k: int| 0 <= k && k + 1 < r.len() && #[trigger] r[k] == sep implies r[k + 1] != sep by {
                if k + 1 < p.len() {
                    assert(r[k] == p[k] && r[k + 1] == p[k + 1]);
                } else {
                    assert(r[k] == p.last());
                }
            }
        }
    }
}

/// Under a rule that collapses runs of separators, adds no prefix of its own,
/// and puts in front of a leading digit only text without its separator, no
/// identity holds two separators side by side.
pub proof fn lemma_collapsed_identity_has_single_separators(rule: AnchorRule, text: Seq<char>)
    requires
        rule.runs == Runs::Collapse,
        rule.prefix is None,
        rule.leading_digit_prefix is Some ==> !rule.leading_digit_prefix->0@.contains(rule.separator),
    ensures
        !doubled(slug_of(rule, text), rule.separator),
{
    let normalized = normalized(rule, typeset(rule, text));
    let stripped = headed(rule, normalized);
    let trimmed_before = if rule.trim == Trim::Before { trimmed(stripped) } else { stripped };
    let cased = cased(rule, folded(rule.fold, trimmed_before));
    let kept = retained(rule, cased);
    let trimmed_after = if rule.trim == Trim::AfterRemoval { trimmed(kept) } else { kept };
    let j = joined(rule, trimmed_after);
    let sep = rule.separator;
    lemma_joined_collapsed(rule, trimmed_after);
    let e = edged(rule, j);
    let lo: int = match rule.edges {
        Edges::Trim => skip_char(j, 0, j.len() as int, sep),
        _ => 0,
    };
    lemma_skip_char(j, 0, j.len() as int, sep);
    lemma_back_char(j, lo, j.len() as int, sep);
    lemma_back_char(j, 0, j.len() as int, sep);
    assert(!doubled(e, sep)) by {
        assert forall|k: int| 0 <= k && k + 1 < e.len() && #[trigger] e[k] == sep implies e[k + 1] != sep by {
            assert(e[k] == j[lo + k] && e[k + 1] == j[lo + k + 1]);
        }
    }
    let d = digit_prefixed(rule, e);
    assert(!doubled(d, sep)) by {
        match rule.leading_digit_prefix {
            Some(p) => if e.len() > 0 && '0' <= e[0] && e[0] <= '9' {
                assert(d == p@ + e);
                assert forall|k: int| 0 <= k && k + 1 < d.len() && #[trigger] d[k] == sep implies d[k + 1] != sep by {
                    if k < p@.len() {
                        assert(d[k] == p@[k]);
                        assert(p@.contains(sep));
                    } else {
                        assert(d[k] == e[k - p@.len()] && d[k + 1] == e[k - p@.len() + 1]);
                    }
                }
            },
            None => {},
        }
    }
    assert(slug_of(rule, text) == d);
}

/// Every rule of the table that collapses runs of separators, bar the one
/// that puts its own prefix in front, publishes identities without two
/// separators side by side.
pub proof fn lemma_table_collapsed_identities(i: int, text: Seq<char>)
    requires
        0 <= i < super::rule_table().len(),
        super::rule_table()[i].runs == Runs::Collapse,
        super::rule_table()[i].prefix is None,
    ensures
        !doubled(slug_of(super::rule_table()[i], text), super::rule_table()[i].separator),
{
    let rule = super::rule_table()[i];
    reveal_strlit("_");
    assert(rule.leading_digit_prefix is Some ==> !rule.leading_digit_prefix->0@.contains(rule.separator)) by {
        if rule.leading_digit_prefix is Some {
            let p = rule.leading_digit_prefix->0@;
            if p.contains(rule.separator) {
                let k = choose|k: int| 0 <= k < p.len() && p[k] == rule.separator;
                assert(p[k] == '_');
            }
        }
    }
    lemma_collapsed_identity_has_single_separators(rule, text);
}

/// Under a rule that puts text not beginning with a digit in front of an
/// identity that would begin with one, and adds no other prefix, no identity
/// begins with a digit.
pub proof fn lemma_no_identity_begins_with_a_digit(rule: AnchorRule, text: Seq<char>)
    requires
        rule.prefix is None,
        rule.leading_digit_prefix is Some,
        rule.leading_digit_prefix->0@.len() > 0,
        !('0' <= rule.leading_digit_prefix->0@[0] && rule.leading_digit_prefix->0@[0] <= '9'),
    ensures
        slug_of(rule, text).len() == 0 || !('0' <= slug_of(rule, text)[0] && slug_of(rule, text)[0] <= '9'),
{
    let normalized = normalized(rule, typeset(rule, text));
    let stripped = headed(rule, normalized);
    let trimmed_before = if rule.trim == Trim::Before { trimmed(stripped) } else { stripped };
    let cased = cased(rule, folded(rule.fold, trimmed_before));
    let kept = retained(rule, cased);
    let trimmed_after = if rule.trim == Trim::AfterRemoval { trimmed(kept) } else { kept };
    let e = edged(rule, joined(rule, trimmed_after));
    let p = rule.leading_digit_prefix->0@;
    let d = digit_prefixed(rule, e);
    if e.len() > 0 && '0' <= e[0] && e[0] <= '9' {
        assert(d == p + e);
        assert(d[0] == p[0]);
    }
    assert(slug_of(rule, text) == d);
}

/// Drops the leading run of characters that are not ASCII letters.
fn strip_head(t: &[char]) -> (r: Vec<char>)
    ensures
        r@ == t@.skip(letter_start(t@, 0)),
{
    let mut i: usize = 0;
    while i < t.len() && !(('a' <= t[i] && t[i] <= 'z') || ('A' <= t[i] && t[i] <= 'Z'))
        invariant
            i <= t@.len(),
            letter_start(t@, 0) == letter_start(t@, i as int),
        decreases t@.len() - i,
    {
        i = i + 1;
    }
    let r = crate::text::copy_range(t, i, t.len());
    assert(r@ =~= t@.skip(i as int));
    r
}

/// Drops the whitespace at either end.
fn trim_chars(t: &[char]) -> (r: Vec<char>)
    ensures
        r@ == trimmed(t@),
{
    let lo = skip_spaces(t, 0, t.len());
    let hi = back_spaces(t, lo, t.len());
    crate::text::copy_range(t, lo, hi)
}

/// Keeps the characters the fold stage keeps.
fn fold_chars(fold: Fold, t: &[char]) -> (r: Vec<char>)
    ensures
        r@ == folded(fold, t@),
{
    let mut out: Vec<char> = Vec::new();
    let mut i: usize = 0;
    while i < t.len()
        invariant
            i <= t@.len(),
            out@ == folded(fold, t@.take(i as int)),
        decreases t@.len() - i,
    {
        let c = t[i];
        assert(t@.take(i + 1).drop_last() =~= t@.take(i as int));
        let keep = match fold {
            Fold::AsWritten => true,
            Fold::AsciiIgnore => (c as u32) < 0x80,
            Fold::LatinMarks => !(0x300 <= (c as u32) && (c as u32) <= 0x36f),
        };
        if keep {
            out.push(c);
        }
        i = i + 1;
    }
    assert(t@.take(t@.len() as int) =~= t@);
    out
}

/// The filter stage.
fn retain_chars(rule: &AnchorRule, t: &[char]) -> (r: Vec<char>)
    ensures
        r@ == retained(*rule, t@),
{
    let mut out: Vec<char> = Vec::new();
    let mut i: usize = 0;
    while i < t.len()
        invariant
            i <= t@.len(),
            out@ == retained(*rule, t@.take(i as int)),
        decreases t@.len() - i,
    {
        let c = t[i];
        assert(t@.take(i + 1).drop_last() =~= t@.take(i as int));
        if c == rule.separator || is_separator(rule.separators, c) {
            out.push(c);
        } else if is_kept(rule.keep, c) {
            match rule.case {
                Case::FullBeforeFilter => out.push(c),
                Case::SimpleAfterFilter => out.push(simple_lower(c)),
            }
        }
        i = i + 1;
    }
    assert(t@.take(t@.len() as int) =~= t@);
    out
}

/// The separator stage.
fn join_chars(rule: &AnchorRule, t: &[char]) -> (r: Vec<char>)
    ensures
        r@ == joined(*rule, t@),
{
    let mut out: Vec<char> = Vec::new();
    let mut i: usize = 0;
    while i < t.len()
        invariant
            i <= t@.len(),
            out@ == joined(*rule, t@.take(i as int)),
        decreases t@.len() - i,
    {
        let c = t[i];
        assert(t@.take(i + 1).drop_last() =~= t@.take(i as int));
        if c == rule.separator || is_separator(rule.separators, c) {
            let collapse = rule.runs == Runs::Collapse && out.len() > 0 && out[out.len() - 1]
                == rule.separator;
            if !collapse {
                out.push(rule.separator);
            }
        } else {
            out.push(c);
        }
        i = i + 1;
    }
    assert(t@.take(t@.len() as int) =~= t@);
    out
}

/// The first index at or after `i`, before `hi`, not holding `c`.
fn skip_chars(t: &[char], i: usize, hi: usize, c: char) -> (j: usize)
    requires
        i <= hi <= t@.len(),
    ensures
        j == skip_char(t@, i as int, hi as int, c),
        i <= j <= hi,
{
    let mut j = i;
    while j < hi && t[j] == c
        invariant
            i <= j <= hi <= t@.len(),
            skip_char(t@, i as int, hi as int, c) == skip_char(t@, j as int, hi as int, c),
        decreases hi - j,
    {
        j = j + 1;
    }
    j
}

/// The end of `[lo, j)` once its trailing run of `c` is dropped.
fn back_chars(t: &[char], lo: usize, j: usize, c: char) -> (k: usize)
    requires
        lo <= j <= t@.len(),
    ensures
        k == back_char(t@, lo as int, j as int, c),
        lo <= k <= j,
{
    let mut k = j;
    while k > lo && t[k - 1] == c
        invariant
            lo <= k <= j <= t@.len(),
            back_char(t@, lo as int, j as int, c) == back_char(t@, lo as int, k as int, c),
        decreases k - lo,
    {
        k = k - 1;
    }
    k
}

/// The edge stage.
fn edge_chars(rule: &AnchorRule, t: &[char]) -> (r: Vec<char>)
    ensures
        r@ == edged(*rule, t@),
{
    match rule.edges {
        Edges::Trim => {
            let lo = skip_chars(t, 0, t.len(), rule.separator);
            let hi = back_chars(t, lo, t.len(), rule.separator);
            crate::text::copy_range(t, lo, hi)
        },
        Edges::TrimEnd => {
            let hi = back_chars(t, 0, t.len(), rule.separator);
            crate::text::copy_range(t, 0, hi)
        },
        Edges::AsWritten => {
            let r = crate::text::copy_range(t, 0, t.len());
            assert(r@ =~= t@);
            r
        },
    }
}

/// `p` followed by `t`, as one string.
fn joined_text(p: &str, t: &[char]) -> (r: Vec<char>)
    ensures
        r@ == p@ + t@,
{
    let mut out = chars_of(p);
    let mut i: usize = 0;
    while i < t.len()
        invariant
            i <= t@.len(),
            out@ == p@ + t@.take(i as int),
        decreases t@.len() - i,
    {
        out.push(t[i]);
        assert(t@.take(i + 1) =~= t@.take(i as int).push(t@[i as int]));
        i = i + 1;
    }
    assert(t@.take(t@.len() as int) =~= t@);
    out
}

/// The identity one rule builds from a heading's text.
pub fn slug(rule: &AnchorRule, text: &str) -> (r: String)
    ensures
        r@ == slug_of(*rule, text@),
{
    let whole = chars_of(text);
    let typeset_text = match rule.typography {
        Typography::SmartPunctuation => smart(text),
        Typography::Plain => text_of(whole.as_slice(), 0, whole.len()),
    };
    assert(typeset_text@ == typeset(*rule, text@)) by {
        assert(text@.subrange(0, text@.len() as int) =~= text@);
    }
    let normalized = match rule.normalize {
        Normalize::AsWritten => typeset_text,
        Normalize::Nfc => to_nfc(typeset_text.as_str()),
        Normalize::Nfkd => to_nfkd(typeset_text.as_str()),
    };
    let normalized_chars = chars_of(normalized.as_str());
    let stripped = match rule.head {
        Head::StripNonLetter => strip_head(normalized_chars.as_slice()),
        Head::AsWritten => normalized_chars,
    };
    assert(stripped@ == headed(*rule, normalized@)) by {
        assert(normalized@.skip(0) =~= normalized@);
    }
    let trimmed_before = if rule.trim == Trim::Before {
        trim_chars(stripped.as_slice())
    } else {
        stripped
    };
    let folded_chars = fold_chars(rule.fold, trimmed_before.as_slice());
    let cased_chars = match rule.case {
        Case::FullBeforeFilter => {
            let folded_text = text_of(folded_chars.as_slice(), 0, folded_chars.len());
            assert(folded_chars@.subrange(0, folded_chars@.len() as int) =~= folded_chars@);
            let lowered = to_lowercase(folded_text.as_str());
            chars_of(lowered.as_str())
        },
        Case::SimpleAfterFilter => folded_chars,
    };
    let kept_chars = retain_chars(rule, cased_chars.as_slice());
    let trimmed_after = if rule.trim == Trim::AfterRemoval {
        trim_chars(kept_chars.as_slice())
    } else {
        kept_chars
    };
    let joined_chars = join_chars(rule, trimmed_after.as_slice());
    let edged_chars = edge_chars(rule, joined_chars.as_slice());
    let digit_prefixed_chars = match rule.leading_digit_prefix {
        Some(p) => if edged_chars.len() > 0 && '0' <= edged_chars[0] && edged_chars[0] <= '9' {
            joined_text(p, edged_chars.as_slice())
        } else {
            edged_chars
        },
        None => edged_chars,
    };
    let prefixed_chars = match rule.prefix {
        Some(p) => if digit_prefixed_chars.len() > 0 {
            joined_text(p, digit_prefixed_chars.as_slice())
        } else {
            digit_prefixed_chars
        },
        None => digit_prefixed_chars,
    };
    text_of(prefixed_chars.as_slice(), 0, prefixed_chars.len())
}

} // verus!
