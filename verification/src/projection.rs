//! Projections a document asserts about the tree: whether the code a sink
//! holds attests the expected text, the ceiling a repository projection works
//! under, the bytes the sorted rows of a tree occupy, and whether an observed
//! value holds exactly those rows.

pub mod assertion;

use crate::bytes::{ends_with, has_prefix, has_suffix, starts_with};
use crate::discovery::GitMode;
use crate::order::strictly_sorted;
use crate::text::{byte_len, chars_of, equals, equals_at, find, find_char, lemma_find, utf8_text};
use crate::tree::{copy_slice, entry_paths, locate, located, under, under_exec, Located, TreeEntry};
use vstd::utf8::{decode_utf8, valid_utf8};
use vstd::prelude::*;

verus! {

/// The work a repository projection may spend before it stops.
#[derive(Clone, Copy, Debug, PartialEq, Eq, Structural)]
pub struct RepositoryProjectionLimits {
    pub records: u64,
    pub bytes: u64,
}

/// The bytes of every row.
pub open spec fn rows_bytes(rows: Seq<Seq<char>>) -> nat
    decreases rows.len(),
{
    if rows.len() == 0 {
        0
    } else {
        rows_bytes(rows.drop_last()) + byte_len(rows.last())
    }
}

/// The bytes the rows occupy once joined by one newline each, capped at the
/// largest `u64`.
pub open spec fn projected_size(rows: Seq<Seq<char>>) -> int {
    let separators: int = if rows.len() == 0 { 0 } else { rows.len() - 1 };
    let total = separators + rows_bytes(rows);
    if total > u64::MAX { u64::MAX as int } else { total }
}

/// The views of the rows.
pub open spec fn row_views(rows: Seq<&str>) -> Seq<Seq<char>> {
    rows.map_values(|r: &str| r@)
}

/// The bytes the rows occupy once joined by newlines: each row's bytes plus
/// one separator between two rows, saturating at the largest `u64`.
pub fn projected_bytes(rows: &[&str]) -> (n: u64)
    ensures
        n == projected_size(row_views(rows@)),
{
    let separators: usize = if rows.len() == 0 { 0 } else { rows.len() - 1 };
    let mut total: u64 = separators as u64;
    let mut k: usize = 0;
    while k < rows.len()
        invariant
            k <= rows@.len(),
            separators == (if rows@.len() == 0 { 0 } else { rows@.len() - 1 }),
            total == (if separators + rows_bytes(row_views(rows@).take(k as int)) > u64::MAX {
                u64::MAX as int
            } else {
                separators + rows_bytes(row_views(rows@).take(k as int))
            }),
        decreases rows@.len() - k,
    {
        let row = rows[k];
        let width = row.as_bytes().len();
        proof {
            crate::text::lemma_byte_len_encoding(row@);
            assert(row_views(rows@).take(k + 1).drop_last() =~= row_views(rows@).take(k as int));
            assert(row_views(rows@).take(k + 1).last() == row@);
            assert(width == byte_len(row@));
            assert(rows_bytes(row_views(rows@).take(k + 1)) == rows_bytes(row_views(rows@).take(k as int)) + byte_len(row@));
        }
        total = total.saturating_add(width as u64);
        k = k + 1;
    }
    assert(row_views(rows@).take(rows@.len() as int) =~= row_views(rows@));
    total
}

/// The pieces of `s[i..]` between the newlines in it.
pub open spec fn pieces_from(s: Seq<char>, i: int) -> Seq<Seq<char>>
    decreases s.len() - i,
{
    if i < 0 || i > s.len() {
        seq![]
    } else {
        let j = find(s, i, s.len() as int, '\n');
        if j >= s.len() {
            seq![s.subrange(i, s.len() as int)]
        } else {
            proof {
                lemma_find(s, i, s.len() as int, '\n');
            }
            seq![s.subrange(i, j)] + pieces_from(s, j + 1)
        }
    }
}

/// Whether an observed value holds exactly the rows: nothing for no rows, or
/// the rows one to a line, with no newline after the last.
pub open spec fn rows_match_spec(rows: Seq<Seq<char>>, observed: Seq<char>) -> bool {
    if rows.len() == 0 {
        observed.len() == 0
    } else {
        observed.len() > 0 && pieces_from(observed, 0) == rows
    }
}

/// Whether an observed value holds exactly the rows.
pub fn rows_match(rows: &[&str], observed: &str) -> (b: bool)
    ensures
        b == rows_match_spec(row_views(rows@), observed@),
{
    let s = chars_of(observed);
    assert(row_views(rows@).len() == rows@.len());
    if rows.len() == 0 {
        return s.len() == 0;
    }
    if s.len() == 0 {
        return false;
    }
    let n = s.len();
    let mut i: usize = 0;
    let mut r: usize = 0;
    while r < rows.len()
        invariant
            n == s@.len(),
            n > 0,
            s@ == observed@,
            0 <= i <= n,
            r < rows@.len(),
            r < rows@.len() ==> pieces_from(s@, 0) == row_views(rows@).take(r as int) + pieces_from(
                s@,
                i as int,
            ),
        decreases rows@.len() - r,
    {
        proof {
            lemma_find(s@, i as int, n as int, '\n');
        }
        let j = find_char(s.as_slice(), i, n, '\n');
        let row = chars_of(rows[r]);
        let same = equals_at(s.as_slice(), i, j, row.as_slice());
        if !same {
            proof {
                let p = pieces_from(s@, i as int);
                assert(p[0] == s@.subrange(i as int, j as int));
                assert((row_views(rows@).take(r as int) + p)[r as int] == p[0]);
                assert(row_views(rows@)[r as int] == rows@[r as int]@);
            }
            return false;
        }
        if r + 1 == rows.len() {
            proof {
                let p = pieces_from(s@, i as int);
                if j < n {
                    let q = pieces_from(s@, j + 1);
                    assert(p =~= seq![s@.subrange(i as int, j as int)] + q);
                    lemma_pieces_nonempty(s@, j + 1);
                    assert((row_views(rows@).take(r as int) + p).len() > rows@.len());
                    assert(pieces_from(s@, 0).len() != row_views(rows@).len());
                    assert(!rows_match_spec(row_views(rows@), observed@));
                } else {
                    assert(p =~= seq![s@.subrange(i as int, n as int)]);
                    assert(s@.subrange(i as int, j as int) == row@);
                    assert(row_views(rows@)[r as int] == rows@[r as int]@);
                    assert(row_views(rows@).take(r as int) + p =~= row_views(rows@));
                    assert(rows_match_spec(row_views(rows@), observed@));
                }
            }
            return j == n;
        }
        if j == n {
            proof {
                let p = pieces_from(s@, i as int);
                assert((row_views(rows@).take(r as int) + p).len() == r + 1);
            }
            return false;
        }
        proof {
            let p = pieces_from(s@, i as int);
            let q = pieces_from(s@, j + 1);
            assert(p =~= seq![s@.subrange(i as int, j as int)] + q);
            assert(row_views(rows@).take(r + 1) =~= row_views(rows@).take(r as int) + seq![
                s@.subrange(i as int, j as int),
            ]);
        }
        i = j + 1;
        r = r + 1;
    }
    true
}

/// A text always splits into at least one piece.
pub proof fn lemma_pieces_nonempty(s: Seq<char>, i: int)
    requires
        0 <= i <= s.len(),
    ensures
        pieces_from(s, i).len() >= 1,
{
    lemma_find(s, i, s.len() as int, '\n');
}

/// The rows one to a line, with no newline after the last: the value the
/// projection stands for.
pub open spec fn joined_rows(rows: Seq<Seq<char>>) -> Seq<char>
    decreases rows.len(),
{
    if rows.len() == 0 {
        seq![]
    } else if rows.len() == 1 {
        rows[0]
    } else {
        rows[0].push('\n') + joined_rows(rows.skip(1))
    }
}

proof fn lemma_find_shift(p: Seq<char>, y: Seq<char>, k: int)
    requires
        0 <= k <= y.len(),
    ensures
        find(p + y, p.len() + k, (p + y).len() as int, '\n') == p.len() + find(y, k, y.len() as int, '\n'),
    decreases y.len() - k,
{
    if k < y.len() && y[k] != '\n' {
        assert((p + y)[p.len() + k] == y[k]);
        lemma_find_shift(p, y, k + 1);
    } else if k < y.len() {
        assert((p + y)[p.len() + k] == y[k]);
    }
}

proof fn lemma_pieces_shift(p: Seq<char>, y: Seq<char>, k: int)
    requires
        0 <= k <= y.len(),
    ensures
        pieces_from(p + y, p.len() + k) == pieces_from(y, k),
    decreases y.len() - k,
{
    lemma_find_shift(p, y, k);
    lemma_find(y, k, y.len() as int, '\n');
    let j = find(y, k, y.len() as int, '\n');
    if j >= y.len() {
        assert((p + y).subrange(p.len() + k, (p + y).len() as int) =~= y.subrange(k, y.len() as int));
    } else {
        assert((p + y).subrange(p.len() + k, p.len() + j) =~= y.subrange(k, j));
        lemma_pieces_shift(p, y, j + 1);
    }
}

/// Whether no row holds a newline.
pub open spec fn newline_free(rows: Seq<Seq<char>>) -> bool {
    forall|r: int| 0 <= r < rows.len() ==> !(#[trigger] rows[r]).contains('\n')
}

proof fn lemma_pieces_of_joined(rows: Seq<Seq<char>>)
    requires
        rows.len() > 0,
        newline_free(rows),
    ensures
        pieces_from(joined_rows(rows), 0) == rows,
    decreases rows.len(),
{
    let x = rows[0];
    lemma_find(x, 0, x.len() as int, '\n');
    if find(x, 0, x.len() as int, '\n') < x.len() {
        assert(x.contains(x[find(x, 0, x.len() as int, '\n')]));
    }
    if rows.len() == 1 {
        assert(x.subrange(0, x.len() as int) =~= x);
        assert(pieces_from(x, 0) =~= seq![x]);
    } else {
        let rest = rows.skip(1);
        assert(newline_free(rest)) by {
            assert forall|r: int| 0 <= r < rest.len() implies !(#[trigger] rest[r]).contains('\n') by {
                assert(rest[r] == rows[r + 1]);
            }
        }
        lemma_pieces_of_joined(rest);
        let p = x.push('\n');
        let y = joined_rows(rest);
        let s = p + y;
        assert(find(s, 0, s.len() as int, '\n') == x.len()) by {
            lemma_find(s, 0, s.len() as int, '\n');
            let f = find(s, 0, s.len() as int, '\n');
            assert(s[x.len() as int] == '\n');
            if f < x.len() {
                assert(s[f] == x[f]);
                assert(x.contains(x[f]));
            }
        }
        assert(s.subrange(0, x.len() as int) =~= x);
        lemma_pieces_shift(p, y, 0);
        assert(pieces_from(s, 0) =~= seq![x] + rest);
        assert(seq![x] + rest =~= rows);
    }
}

proof fn lemma_rows_bytes_front(rows: Seq<Seq<char>>)
    requires
        rows.len() > 0,
    ensures
        rows_bytes(rows) == byte_len(rows[0]) + rows_bytes(rows.skip(1)),
    decreases rows.len(),
{
    if rows.len() > 1 {
        lemma_rows_bytes_front(rows.drop_last());
        assert(rows.drop_last().skip(1) =~= rows.skip(1).drop_last());
        assert(rows.skip(1).last() == rows.last());
        assert(rows.drop_last()[0] == rows[0]);
        assert(rows_bytes(rows.skip(1)) == rows_bytes(rows.skip(1).drop_last()) + byte_len(rows.skip(1).last()));
    } else {
        assert(rows.drop_last() =~= Seq::<Seq<char>>::empty());
        assert(rows.skip(1) =~= Seq::<Seq<char>>::empty());
        assert(rows.last() == rows[0]);
    }
}

proof fn lemma_joined_bytes(rows: Seq<Seq<char>>)
    requires
        rows.len() > 0,
    ensures
        byte_len(joined_rows(rows)) == rows.len() - 1 + rows_bytes(rows),
    decreases rows.len(),
{
    lemma_rows_bytes_front(rows);
    if rows.len() == 1 {
        assert(rows.skip(1) =~= Seq::<Seq<char>>::empty());
    } else {
        lemma_joined_bytes(rows.skip(1));
        let x = rows[0];
        crate::text::lemma_byte_len_concat(x.push('\n'), joined_rows(rows.skip(1)));
        crate::text::lemma_byte_len_concat(x, seq!['\n']);
        assert(x.push('\n') =~= x + seq!['\n']);
        assert(byte_len(seq!['\n']) == 1) by {
            reveal_with_fuel(byte_len, 2);
        }
    }
}

/// The projected value of the rows is what `rows_match` accepts for them,
/// and `projected_bytes` counts its bytes: newline-free rows joined one to a
/// line match themselves, and occupy what the projection says, up to the cap.
pub proof fn lemma_projection_agrees(rows: Seq<Seq<char>>)
    requires
        rows.len() > 0,
        newline_free(rows),
    ensures
        joined_rows(rows).len() > 0 ==> rows_match_spec(rows, joined_rows(rows)),
        projected_size(rows) == (if byte_len(joined_rows(rows)) > u64::MAX {
            u64::MAX as int
        } else {
            byte_len(joined_rows(rows)) as int
        }),
{
    lemma_pieces_of_joined(rows);
    lemma_joined_bytes(rows);
}

/// Whether `needle` occurs in `haystack` at `i`.
pub open spec fn occurs_at(haystack: Seq<u8>, needle: Seq<u8>, i: int) -> bool {
    0 <= i && i + needle.len() <= haystack.len() && haystack.subrange(i, i + needle.len()) == needle
}

/// Calls `memchr::memmem::find`, which the crate documents as returning the
/// index of the first occurrence of the needle in the haystack, and none
/// when it does not occur.
#[verifier::external_body]
fn find_bytes(haystack: &[u8], needle: &[u8]) -> (r: Option<usize>)
    ensures
        match r {
            Some(i) => occurs_at(haystack@, needle@, i as int) && forall|j: int|
                0 <= j < i ==> !#[trigger] occurs_at(haystack@, needle@, j),
            None => forall|j: int| !#[trigger] occurs_at(haystack@, needle@, j),
        },
{
    memchr::memmem::find(haystack, needle)
}

/// How an asserted projection reads the code a sink holds.
#[derive(Clone, Copy, Debug, PartialEq, Eq, Structural)]
pub enum ProjectionKind {
    CodeTextV1,
    ContainsV1,
    SortedRowsV1,
    DecimalCountV1,
}

/// Why the code a sink holds does not attest the expected text.
#[derive(Clone, Copy, Debug, PartialEq, Eq, Structural)]
pub enum CodeDrift {
    ContentAbsent,
    ContentDiffers,
}

/// Whether the code attests the expected text: a containment projection
/// needs the text somewhere in it, every other projection needs the code to
/// be exactly the text.
pub open spec fn code_held_spec(expected: Seq<u8>, projection: ProjectionKind, observed: Seq<u8>) -> Result<(), CodeDrift> {
    match projection {
        ProjectionKind::ContainsV1 => if exists|i: int| occurs_at(observed, expected, i) {
            Ok(())
        } else {
            Err(CodeDrift::ContentAbsent)
        },
        _ => if expected == observed {
            Ok(())
        } else {
            Err(CodeDrift::ContentDiffers)
        },
    }
}

/// Whether the code a sink holds attests the expected text, and why not.
pub fn code_verdict(expected: &[u8], projection: ProjectionKind, observed: &[u8]) -> (r: Result<(), CodeDrift>)
    ensures
        r == code_held_spec(expected@, projection, observed@),
{
    match projection {
        ProjectionKind::ContainsV1 => {
            match find_bytes(observed, expected) {
                Some(i) => {
                    assert(occurs_at(observed@, expected@, i as int));
                    Ok(())
                },
                None => Err(CodeDrift::ContentAbsent),
            }
        },
        ProjectionKind::CodeTextV1 | ProjectionKind::SortedRowsV1 | ProjectionKind::DecimalCountV1 => {
            if expected.len() != observed.len() {
                return Err(CodeDrift::ContentDiffers);
            }
            let mut k: usize = 0;
            while k < expected.len()
                invariant
                    k <= expected@.len(),
                    expected@.len() == observed@.len(),
                    projection != ProjectionKind::ContainsV1,
                    forall|m: int| 0 <= m < k ==> expected@[m] == observed@[m],
                decreases expected@.len() - k,
            {
                if expected[k] != observed[k] {
                    assert(expected@[k as int] != observed@[k as int]);
                    return Err(CodeDrift::ContentDiffers);
                }
                k = k + 1;
            }
            assert(expected@ =~= observed@);
            Ok(())
        },
    }
}


/// Which rows of a tree a projection selects: the files beneath `root`, at
/// most `maximum_depth` levels down, ending with `suffix` where one is given.
pub struct TreePathSelection {
    pub root: Vec<u8>,
    pub maximum_depth: u64,
    pub suffix: Option<Vec<u8>>,
}

/// Why a tree's rows cannot be selected.
#[derive(Clone, Copy, Debug, PartialEq, Eq, Structural)]
pub enum SelectionDrift {
    SourceTreeRootAbsent,
    SourceTreeRootNotATree,
    SourceTreePathNotUtf8,
    SourceTreePathNotARow,
}

/// A character of the `Cc` general category, which is exactly what
/// `char::is_control` tests.
pub open spec fn is_control(c: char) -> bool {
    (c as u32) < 0x20 || (0x7f <= (c as u32) && (c as u32) <= 0x9f)
}

/// How many separators a relative path holds.
pub open spec fn slashes(s: Seq<u8>) -> nat
    decreases s.len(),
{
    if s.len() == 0 {
        0
    } else {
        slashes(s.drop_last()) + if s.last() == 0x2fu8 { 1nat } else { 0nat }
    }
}

/// What one entry contributes to the rows: nothing, a row, or the failure
/// that ends the selection.
pub open spec fn row_step(e: TreeEntry, sel: TreePathSelection) -> Option<Result<Seq<char>, SelectionDrift>> {
    let prefix = under(sel.root@);
    let relative = e.path@.skip(prefix.len() as int);
    if !starts_with(e.path@, prefix) || e.mode == GitMode::Tree {
        None
    } else if slashes(relative) + 1 > sel.maximum_depth {
        None
    } else if sel.suffix matches Some(x) && !ends_with(relative, x@) {
        None
    } else if !valid_utf8(relative) {
        Some(Err(SelectionDrift::SourceTreePathNotUtf8))
    } else if exists|k: int| 0 <= k < decode_utf8(relative).len() && is_control(#[trigger] decode_utf8(relative)[k]) {
        Some(Err(SelectionDrift::SourceTreePathNotARow))
    } else {
        Some(Ok(decode_utf8(relative)))
    }
}

/// The rows of the entries, in listing order, or the first failure.
pub open spec fn rows_from(v: Seq<TreeEntry>, sel: TreePathSelection) -> Result<Seq<Seq<char>>, SelectionDrift>
    decreases v.len(),
{
    if v.len() == 0 {
        Ok(seq![])
    } else {
        match row_step(v[0], sel) {
            None => rows_from(v.drop_first(), sel),
            Some(Err(d)) => Err(d),
            Some(Ok(row)) => match rows_from(v.drop_first(), sel) {
                Ok(rest) => Ok(seq![row] + rest),
                Err(d) => Err(d),
            },
        }
    }
}

/// The selected rows: the root must be a tree, held or implied.
pub open spec fn selected_rows_of(v: Seq<TreeEntry>, sel: TreePathSelection) -> Result<Seq<Seq<char>>, SelectionDrift> {
    match located(v, sel.root@) {
        None => Err(SelectionDrift::SourceTreeRootAbsent),
        Some(Located::Entry(m)) => if m == GitMode::Tree {
            rows_from(v, sel)
        } else {
            Err(SelectionDrift::SourceTreeRootNotATree)
        },
        Some(Located::ImpliedTree) => rows_from(v, sel),
    }
}

/// The strings as values.
pub open spec fn string_views(v: Seq<String>) -> Seq<Seq<char>> {
    v.map_values(|r: String| r@)
}

/// Whether a control character is among the characters.
fn any_control(cs: &Vec<char>) -> (r: bool)
    ensures
        r == exists|k: int| 0 <= k < cs@.len() && is_control(#[trigger] cs@[k]),
{
    for k in 0..cs.len()
        invariant
            forall|m: int| 0 <= m < k ==> !is_control(#[trigger] cs@[m]),
    {
        let u = cs[k] as u32;
        if u < 0x20 || (0x7f <= u && u <= 0x9f) {
            assert(is_control(cs@[k as int]));
            return true;
        }
    }
    false
}

/// What one entry contributes to the rows.
fn entry_row(e: &TreeEntry, sel: &TreePathSelection, prefix: &Vec<u8>) -> (r: Option<Result<String, SelectionDrift>>)
    requires
        prefix@ == under(sel.root@),
    ensures
        match (r, row_step(*e, *sel)) {
            (None, None) => true,
            (Some(Err(a)), Some(Err(b))) => a == b,
            (Some(Ok(a)), Some(Ok(b))) => a@ == b,
            _ => false,
        },
{
    if !has_prefix(&e.path, prefix) || e.mode == GitMode::Tree {
        return None;
    }
    let relative = copy_slice(&e.path, prefix.len(), e.path.len());
    assert(relative@ =~= e.path@.skip(prefix@.len() as int));
    let mut separators: usize = 0;
    for k in 0..relative.len()
        invariant
            separators == slashes(relative@.take(k as int)),
            separators <= k,
    {
        assert(relative@.take(k + 1).drop_last() =~= relative@.take(k as int));
        if relative[k] == 0x2fu8 {
            separators = separators + 1;
        }
    }
    assert(relative@.take(relative@.len() as int) =~= relative@);
    if separators as u64 >= sel.maximum_depth {
        return None;
    }
    if let Some(x) = &sel.suffix {
        if !has_suffix(&relative, x) {
            return None;
        }
    }
    let text = match utf8_text(relative.as_slice()) {
        Some(t) => t,
        None => return Some(Err(SelectionDrift::SourceTreePathNotUtf8)),
    };
    let cs = chars_of(text);
    if any_control(&cs) {
        return Some(Err(SelectionDrift::SourceTreePathNotARow));
    }
    Some(Ok(text.to_owned()))
}

/// The rows a selection takes from a tree listing in path order: the files
/// beneath the root, spelled relative to it, within the depth and ending with
/// the suffix; the root must be a tree, held or implied, and a selected path
/// that is not UTF-8 text without control characters ends the selection.
pub fn selected_rows(entries: &Vec<TreeEntry>, selection: &TreePathSelection) -> (r: Result<Vec<String>, SelectionDrift>)
    requires
        strictly_sorted(entry_paths(entries@)),
    ensures
        match (r, selected_rows_of(entries@, *selection)) {
            (Ok(a), Ok(b)) => string_views(a@) == b,
            (Err(a), Err(b)) => a == b,
            _ => false,
        },
{
    match locate(entries, &selection.root) {
        None => return Err(SelectionDrift::SourceTreeRootAbsent),
        Some(Located::Entry(m)) => {
            if m != GitMode::Tree {
                return Err(SelectionDrift::SourceTreeRootNotATree);
            }
        },
        Some(Located::ImpliedTree) => {},
    }
    let prefix = under_exec(&selection.root);
    let mut rows: Vec<String> = Vec::new();
    assert(entries@.skip(0) =~= entries@);
    assert(string_views(rows@) =~= Seq::<Seq<char>>::empty());
    proof {
        match rows_from(entries@, *selection) {
            Ok(rest) => {
                assert(string_views(rows@) + rest =~= rest);
            },
            Err(_) => {},
        }
    }
    for k in 0..entries.len()
        invariant
            prefix@ == under(selection.root@),
            selected_rows_of(entries@, *selection) == rows_from(entries@, *selection),
            match rows_from(entries@.skip(k as int), *selection) {
                Ok(rest) => rows_from(entries@, *selection) == Ok::<Seq<Seq<char>>, SelectionDrift>(string_views(rows@) + rest),
                Err(d) => rows_from(entries@, *selection) == Err::<Seq<Seq<char>>, SelectionDrift>(d),
            },
    {
        let ghost tail = entries@.skip(k as int);
        assert(tail[0] == entries@[k as int]);
        assert(tail.drop_first() =~= entries@.skip(k + 1));
        match entry_row(&entries[k], selection, &prefix) {
            None => {},
            Some(Err(d)) => return Err(d),
            Some(Ok(row)) => {
                let ghost pre = string_views(rows@);
                rows.push(row);
                assert(string_views(rows@) =~= pre.push(row@));
                proof {
                    match rows_from(entries@.skip(k + 1), *selection) {
                        Ok(rest) => {
                            assert(pre + (seq![row@] + rest) =~= pre.push(row@) + rest);
                        },
                        Err(_) => {},
                    }
                }
            },
        }
    }
    assert(entries@.skip(entries@.len() as int) =~= Seq::<TreeEntry>::empty());
    assert(string_views(rows@) + Seq::<Seq<char>>::empty() =~= string_views(rows@));
    Ok(rows)
}

} // verus!
