//! What one tracked ignore file says its own directory does not keep, split by
//! what each line names. Only lines whose reach the line itself bounds are
//! read: a literal that a slash anchors, and the bare `*` that empties the
//! file's own directory. A pattern reaching wherever the tree happens to match
//! it would let one line clear an unbounded number of references.

use crate::bytes::{ascii, has_byte, lemma_next_byte, next_byte, find_byte};
use crate::lfs::lines_from;
use vstd::prelude::*;

verus! {

/// The bytes a qualifying line may not hold: pattern and escape bytes.
pub open spec fn rejected(c: u8) -> bool {
    c == 0x2a || c == 0x3f || c == 0x5b || c == 0x5d || c == 0x5c
}

/// Whether some byte of `s` is a pattern or escape byte.
pub open spec fn has_rejected(s: Seq<u8>) -> bool {
    exists|k: int| 0 <= k < s.len() && rejected(#[trigger] s[k])
}

/// A blank an ignore line may end in: a space or a tab.
pub open spec fn blank_byte(c: u8) -> bool {
    c == 0x20 || c == 0x09
}

/// The end of `s[..j]` once its trailing blanks are dropped.
pub open spec fn blank_end(s: Seq<u8>, j: int) -> int
    decreases j,
{
    if j > 0 && blank_byte(s[j - 1]) {
        blank_end(s, j - 1)
    } else {
        j
    }
}

/// A line without its trailing spaces and tabs.
pub open spec fn trimmed_blanks(line: Seq<u8>) -> Seq<u8> {
    line.take(blank_end(line, line.len() as int))
}

/// Whether `[i, j)` is one `/`-separated segment of `s`.
pub open spec fn segment(s: Seq<u8>, i: int, j: int) -> bool {
    &&& 0 <= i <= j <= s.len()
    &&& (i == 0 || s[i - 1] == 0x2f)
    &&& (j == s.len() || s[j] == 0x2f)
    &&& !has_byte(s, i, j, 0x2f)
}

/// A path spelled with no empty, `.` or `..` segment.
pub open spec fn well_formed_spec(s: Seq<u8>) -> bool {
    &&& s.len() > 0
    &&& forall|i: int, j: int| #[trigger] segment(s, i, j) ==> {
        &&& i < j
        &&& s.subrange(i, j) != ascii("."@)
        &&& s.subrange(i, j) != ascii(".."@)
    }
}

/// `s` without one leading `/`.
pub open spec fn unanchored(s: Seq<u8>) -> Seq<u8> {
    if s.len() > 0 && s[0] == 0x2f {
        s.skip(1)
    } else {
        s
    }
}

/// `s` without one trailing `/`.
pub open spec fn unslashed(s: Seq<u8>) -> Seq<u8> {
    if s.len() > 0 && s.last() == 0x2f {
        s.drop_last()
    } else {
        s
    }
}

/// A line a slash anchors to this directory, at the front or in the middle,
/// with no pattern or escape byte and no comment, without its leading slash.
pub open spec fn qualifying_spec(line: Seq<u8>) -> Option<Seq<u8>> {
    let a = next_byte(line, 0, line.len() as int, 0x2f);
    if (line.len() > 0 && line[0] == 0x23) || has_rejected(line) {
        None
    } else if a >= line.len() || a >= line.len() - 1 {
        None
    } else {
        Some(unanchored(line))
    }
}

/// The one entry a negation puts back, when it names a single literal entry
/// of the emptied directory.
pub open spec fn kept_entry_spec(negated: Seq<u8>) -> Option<Seq<u8>> {
    let spelled = unslashed(unanchored(negated));
    if !has_byte(spelled, 0, spelled.len() as int, 0x2f) && !has_rejected(spelled)
        && well_formed_spec(spelled) {
        Some(spelled)
    } else {
        None
    }
}

/// What one raw line of an ignore file says.
pub enum LineSays {
    /// The bare `*`: the directory holds nothing tracked.
    Everything,
    /// A negation naming one literal entry that is kept.
    Keeps(Seq<u8>),
    /// A negation whose reach cannot be bounded.
    Unbounded,
    /// An anchored literal file.
    File(Seq<u8>),
    /// An anchored literal directory.
    Directory(Seq<u8>),
    /// Nothing this reads.
    Nothing,
}

/// What one raw line of an ignore file says, read without its `\r` and its
/// trailing blanks.
pub open spec fn line_says(raw: Seq<u8>) -> LineSays {
    let line = if raw.len() > 0 && raw.last() == 0x0d {
        raw.drop_last()
    } else {
        raw
    };
    let t = trimmed_blanks(line);
    if t == ascii("*"@) {
        LineSays::Everything
    } else if t.len() > 0 && t[0] == 0x21 {
        match kept_entry_spec(t.skip(1)) {
            Some(e) => LineSays::Keeps(e),
            None => LineSays::Unbounded,
        }
    } else {
        match qualifying_spec(t) {
            None => LineSays::Nothing,
            Some(anchored) => {
                let spelled = unslashed(anchored);
                if !well_formed_spec(spelled) {
                    LineSays::Nothing
                } else if anchored.last() == 0x2f {
                    LineSays::Directory(spelled)
                } else {
                    LineSays::File(spelled)
                }
            },
        }
    }
}

/// The lines of an ignore file's body.
pub open spec fn body_lines(body: Seq<u8>) -> Seq<Seq<u8>> {
    lines_from(body, 0)
}

/// What a whole ignore file declares, as sets of paths.
pub struct DeclarationsView {
    pub files: Set<Seq<u8>>,
    pub directories: Set<Seq<u8>>,
    pub kept: Set<Seq<u8>>,
    pub whole_directory: bool,
}

/// What the lines of an ignore file say, together.
pub open spec fn declarations_of(lines: Seq<Seq<u8>>) -> DeclarationsView {
    let empties = exists|k: int| 0 <= k < lines.len() && line_says(#[trigger] lines[k]) is Everything;
    let unbounded = exists|k: int| 0 <= k < lines.len() && line_says(#[trigger] lines[k]) is Unbounded;
    DeclarationsView {
        files: Set::new(|p: Seq<u8>| exists|k: int| 0 <= k < lines.len() && line_says(#[trigger] lines[k]) == LineSays::File(p)),
        directories: Set::new(|p: Seq<u8>| exists|k: int| 0 <= k < lines.len() && line_says(#[trigger] lines[k]) == LineSays::Directory(p)),
        kept: Set::new(|p: Seq<u8>| exists|k: int| 0 <= k < lines.len() && line_says(#[trigger] lines[k]) == LineSays::Keeps(p)),
        whole_directory: empties && !unbounded,
    }
}

/// The first `/`-separated segment of a relative path.
pub open spec fn first_segment(relative: Seq<u8>) -> Seq<u8> {
    relative.take(next_byte(relative, 0, relative.len() as int, 0x2f))
}

/// Whether the file declares `relative`: the bare `*` for everything the
/// negations do not keep, a literal for itself, a directory for itself and
/// every path beneath it.
pub open spec fn declares_spec(d: DeclarationsView, relative: Seq<u8>) -> bool {
    ||| d.whole_directory && !d.kept.contains(first_segment(relative))
    ||| d.files.contains(relative)
    ||| d.directories.contains(relative)
    ||| exists|i: int| 0 <= i < relative.len() && #[trigger] relative[i] == 0x2f && d.directories.contains(relative.take(i))
}

/// A directory line answers for the directory and for every path beneath it.
pub proof fn lemma_directory_covers_descendants(d: DeclarationsView, dir: Seq<u8>, rest: Seq<u8>)
    requires
        d.directories.contains(dir),
    ensures
        declares_spec(d, dir),
        declares_spec(d, dir.push(0x2f) + rest),
{
    let path = dir.push(0x2f) + rest;
    assert(path[dir.len() as int] == 0x2f);
    assert(path.take(dir.len() as int) =~= dir);
}

/// Whether this file declares `relative` depends only on what its lines say,
/// and the bare `*` without an unbounded negation answers for every path whose
/// first segment no negation keeps.
pub proof fn lemma_whole_directory(d: DeclarationsView, relative: Seq<u8>)
    requires
        d.whole_directory,
        !d.kept.contains(first_segment(relative)),
    ensures
        declares_spec(d, relative),
{
}

/// What one tracked ignore file says its own directory does not keep.
#[derive(Clone, Debug)]
pub struct Declarations {
    files: Vec<Vec<u8>>,
    directories: Vec<Vec<u8>>,
    kept: Vec<Vec<u8>>,
    whole_directory: bool,
}

/// The byte strings of a list, as a set.
pub open spec fn byte_set(v: Seq<Vec<u8>>) -> Set<Seq<u8>> {
    Set::new(|x: Seq<u8>| exists|i: int| 0 <= i < v.len() && #[trigger] v[i]@ == x)
}

impl View for Declarations {
    type V = DeclarationsView;

    closed spec fn view(&self) -> DeclarationsView {
        DeclarationsView {
            files: byte_set(self.files@),
            directories: byte_set(self.directories@),
            kept: byte_set(self.kept@),
            whole_directory: self.whole_directory,
        }
    }
}

/// A line without its trailing spaces and tabs.
pub fn trim_trailing_blanks(line: &[u8]) -> (r: &[u8])
    ensures
        r@ == trimmed_blanks(line@),
{
    let mut end = line.len();
    while end > 0 && (line[end - 1] == 0x20 || line[end - 1] == 0x09)
        invariant
            end <= line@.len(),
            blank_end(line@, line@.len() as int) == blank_end(line@, end as int),
        decreases end,
    {
        end = end - 1;
    }
    let r = vstd::slice::slice_subrange(line, 0, end);
    assert(r@ =~= line@.take(end as int));
    r
}

/// Whether some byte of `[0, n)` of `s` is a pattern or escape byte.
fn any_rejected(s: &[u8]) -> (b: bool)
    ensures
        b == has_rejected(s@),
{
    let mut k: usize = 0;
    while k < s.len()
        invariant
            k <= s@.len(),
            forall|m: int| 0 <= m < k ==> !rejected(#[trigger] s@[m]),
        decreases s@.len() - k,
    {
        let c = s[k];
        if c == 0x2a || c == 0x3f || c == 0x5b || c == 0x5d || c == 0x5c {
            return true;
        }
        k = k + 1;
    }
    false
}

/// `s` without one leading `/`.
fn strip_anchor(s: &[u8]) -> (r: &[u8])
    ensures
        r@ == unanchored(s@),
{
    if s.len() > 0 && s[0] == 0x2f {
        let r = vstd::slice::slice_subrange(s, 1, s.len());
        assert(r@ =~= s@.skip(1));
        r
    } else {
        s
    }
}

/// `s` without one trailing `/`.
fn strip_slash(s: &[u8]) -> (r: &[u8])
    ensures
        r@ == unslashed(s@),
{
    if s.len() > 0 && s[s.len() - 1] == 0x2f {
        let r = vstd::slice::slice_subrange(s, 0, s.len() - 1);
        assert(r@ =~= s@.drop_last());
        r
    } else {
        s
    }
}

/// A line a slash anchors to this directory, without its leading slash.
pub fn qualifying(line: &[u8]) -> (r: Option<&[u8]>)
    ensures
        match r {
            Some(a) => qualifying_spec(line@) == Some(a@),
            None => qualifying_spec(line@) is None,
        },
{
    if (line.len() > 0 && line[0] == 0x23) || any_rejected(line) {
        return None;
    }
    let anchor = find_byte(line, 0, line.len(), 0x2f);
    if anchor >= line.len() || anchor >= line.len() - 1 {
        return None;
    }
    Some(strip_anchor(line))
}

/// Whether the segment `[start, k)` is empty, `.` or `..`.
fn bad_segment(s: &[u8], start: usize, k: usize) -> (b: bool)
    requires
        start <= k <= s@.len(),
    ensures
        b == !(start < k && s@.subrange(start as int, k as int) != ascii("."@)
            && s@.subrange(start as int, k as int) != ascii(".."@)),
{
    k == start || crate::bytes::spells(s, start, k, ".") || crate::bytes::spells(s, start, k, "..")
}

/// A path spelled with no empty, `.` or `..` segment.
pub fn well_formed(spelled: &[u8]) -> (b: bool)
    ensures
        b == well_formed_spec(spelled@),
{
    if spelled.len() == 0 {
        return false;
    }
    let n = spelled.len();
    let mut start: usize = 0;
    let mut k: usize = 0;
    while k < n
        invariant
            n == spelled@.len(),
            start <= k <= n,
            start == 0 || spelled@[start - 1] == 0x2f,
            !has_byte(spelled@, start as int, k as int, 0x2f),
            forall|i: int, j: int| #[trigger] segment(spelled@, i, j) && j < k ==> {
                &&& i < j
                &&& spelled@.subrange(i, j) != ascii("."@)
                &&& spelled@.subrange(i, j) != ascii(".."@)
            },
        decreases n - k,
    {
        if spelled[k] == 0x2f {
            if bad_segment(spelled, start, k) {
                assert(segment(spelled@, start as int, k as int));
                return false;
            }
            proof {
                assert forall|i: int, j: int| #[trigger] segment(spelled@, i, j) && j < k + 1 implies {
                    &&& i < j
                    &&& spelled@.subrange(i, j) != ascii("."@)
                    &&& spelled@.subrange(i, j) != ascii(".."@)
                } by {
                    if j == k {
                        if i < start {
                            assert(spelled@[start - 1] == 0x2f);
                        } else if i > start {
                            assert(spelled@[i - 1] == 0x2f);
                        }
                    }
                }
            }
            start = k + 1;
        }
        k = k + 1;
    }
    if bad_segment(spelled, start, n) {
        assert(segment(spelled@, start as int, n as int));
        return false;
    }
    proof {
        assert forall|i: int, j: int| #[trigger] segment(spelled@, i, j) implies {
            &&& i < j
            &&& spelled@.subrange(i, j) != ascii("."@)
            &&& spelled@.subrange(i, j) != ascii(".."@)
        } by {
            if j == n {
                if i < start {
                    assert(spelled@[start - 1] == 0x2f);
                } else if i > start {
                    assert(spelled@[i - 1] == 0x2f);
                }
            }
        }
    }
    true
}

/// The one entry a negation puts back, when it names a single literal entry
/// of the emptied directory.
pub fn kept_entry(negated: &[u8]) -> (r: Option<&[u8]>)
    ensures
        match r {
            Some(e) => kept_entry_spec(negated@) == Some(e@),
            None => kept_entry_spec(negated@) is None,
        },
{
    let anchored = strip_anchor(negated);
    let spelled = strip_slash(anchored);
    let slash = find_byte(spelled, 0, spelled.len(), 0x2f);
    proof {
        lemma_next_byte(spelled@, 0, spelled@.len() as int, 0x2f);
    }
    let single = slash == spelled.len() && !any_rejected(spelled);
    if single && well_formed(spelled) {
        Some(spelled)
    } else {
        None
    }
}

/// Whether `s` is among the byte strings of `v`.
fn holds(v: &Vec<Vec<u8>>, s: &[u8]) -> (b: bool)
    ensures
        b == byte_set(v@).contains(s@),
{
    let mut i: usize = 0;
    while i < v.len()
        invariant
            i <= v@.len(),
            forall|k: int| 0 <= k < i ==> v@[k]@ != s@,
        decreases v@.len() - i,
    {
        let item = &v[i];
        if item.len() == s.len() {
            let mut k: usize = 0;
            let mut same = true;
            while k < s.len()
                invariant
                    k <= s@.len(),
                    item@.len() == s@.len(),
                    same == (forall|m: int| 0 <= m < k ==> item@[m] == s@[m]),
                decreases s@.len() - k,
            {
                if item[k] != s[k] {
                    same = false;
                }
                k = k + 1;
            }
            if same {
                assert(item@ =~= s@);
                assert(v@[i as int]@ == s@);
                return true;
            }
        }
        i = i + 1;
    }
    false
}

/// Whether the first segment of `relative` is an entry the negations keep.
pub fn re_included(kept: &Vec<Vec<u8>>, relative: &[u8]) -> (b: bool)
    ensures
        b == byte_set(kept@).contains(first_segment(relative@)),
{
    let end = find_byte(relative, 0, relative.len(), 0x2f);
    proof {
        lemma_next_byte(relative@, 0, relative@.len() as int, 0x2f);
    }
    let entry = vstd::slice::slice_subrange(relative, 0, end);
    assert(entry@ =~= first_segment(relative@));
    holds(kept, entry)
}

/// What one more line adds to what the lines before it say.
pub open spec fn says_after(d: DeclarationsView, empties: bool, unbounded: bool, says: LineSays) -> (DeclarationsView, bool, bool) {
    match says {
        LineSays::Everything => (d, true, unbounded),
        LineSays::Keeps(e) => (DeclarationsView { kept: d.kept.insert(e), ..d }, empties, unbounded),
        LineSays::Unbounded => (d, empties, true),
        LineSays::File(p) => (DeclarationsView { files: d.files.insert(p), ..d }, empties, unbounded),
        LineSays::Directory(p) => (DeclarationsView { directories: d.directories.insert(p), ..d }, empties, unbounded),
        LineSays::Nothing => (d, empties, unbounded),
    }
}

/// Whether some line is the bare `*`.
pub open spec fn any_everything(lines: Seq<Seq<u8>>) -> bool {
    exists|k: int| 0 <= k < lines.len() && line_says(#[trigger] lines[k]) is Everything
}

/// Whether some line is a negation whose reach cannot be bounded.
pub open spec fn any_unbounded(lines: Seq<Seq<u8>>) -> bool {
    exists|k: int| 0 <= k < lines.len() && line_says(#[trigger] lines[k]) is Unbounded
}

proof fn lemma_says_push(lines: Seq<Seq<u8>>, line: Seq<u8>)
    ensures
        ({
            let after = says_after(declarations_of(lines), any_everything(lines), any_unbounded(lines), line_says(line));
            let grown = lines.push(line);
            &&& after.0.files == declarations_of(grown).files
            &&& after.0.directories == declarations_of(grown).directories
            &&& after.0.kept == declarations_of(grown).kept
            &&& after.1 == any_everything(grown)
            &&& after.2 == any_unbounded(grown)
        }),
{
    let grown = lines.push(line);
    let d = declarations_of(lines);
    let g = declarations_of(grown);
    let after = says_after(d, any_everything(lines), any_unbounded(lines), line_says(line));
    assert forall|k: int| 0 <= k < lines.len() implies grown[k] == lines[k] by {}
    assert(grown[lines.len() as int] == line);
    assert(after.0.files =~= g.files) by {
        assert forall|p: Seq<u8>| g.files.contains(p) implies after.0.files.contains(p) by {
            let k = choose|k: int| 0 <= k < grown.len() && line_says(#[trigger] grown[k]) == LineSays::File(p);
            if k < lines.len() {
                assert(line_says(lines[k]) == LineSays::File(p));
            }
        }
        assert forall|p: Seq<u8>| after.0.files.contains(p) implies g.files.contains(p) by {
            if line_says(line) == LineSays::File(p) {
                assert(line_says(grown[lines.len() as int]) == LineSays::File(p));
            } else {
                let k = choose|k: int| 0 <= k < lines.len() && line_says(#[trigger] lines[k]) == LineSays::File(p);
                assert(line_says(grown[k]) == LineSays::File(p));
            }
        }
    }
    assert(after.0.directories =~= g.directories) by {
        assert forall|p: Seq<u8>| g.directories.contains(p) implies after.0.directories.contains(p) by {
            let k = choose|k: int| 0 <= k < grown.len() && line_says(#[trigger] grown[k]) == LineSays::Directory(p);
            if k < lines.len() {
                assert(line_says(lines[k]) == LineSays::Directory(p));
            }
        }
        assert forall|p: Seq<u8>| after.0.directories.contains(p) implies g.directories.contains(p) by {
            if line_says(line) == LineSays::Directory(p) {
                assert(line_says(grown[lines.len() as int]) == LineSays::Directory(p));
            } else {
                let k = choose|k: int| 0 <= k < lines.len() && line_says(#[trigger] lines[k]) == LineSays::Directory(p);
                assert(line_says(grown[k]) == LineSays::Directory(p));
            }
        }
    }
    assert(after.0.kept =~= g.kept) by {
        assert forall|p: Seq<u8>| g.kept.contains(p) implies after.0.kept.contains(p) by {
            let k = choose|k: int| 0 <= k < grown.len() && line_says(#[trigger] grown[k]) == LineSays::Keeps(p);
            if k < lines.len() {
                assert(line_says(lines[k]) == LineSays::Keeps(p));
            }
        }
        assert forall|p: Seq<u8>| after.0.kept.contains(p) implies g.kept.contains(p) by {
            if line_says(line) == LineSays::Keeps(p) {
                assert(line_says(grown[lines.len() as int]) == LineSays::Keeps(p));
            } else {
                let k = choose|k: int| 0 <= k < lines.len() && line_says(#[trigger] lines[k]) == LineSays::Keeps(p);
                assert(line_says(grown[k]) == LineSays::Keeps(p));
            }
        }
    }
    if any_everything(grown) {
        let k = choose|k: int| 0 <= k < grown.len() && line_says(#[trigger] grown[k]) is Everything;
        if k < lines.len() {
            assert(line_says(lines[k]) is Everything);
        }
    }
    if any_everything(lines) {
        let k = choose|k: int| 0 <= k < lines.len() && line_says(#[trigger] lines[k]) is Everything;
        assert(line_says(grown[k]) is Everything);
    }
    if line_says(line) is Everything {
        assert(line_says(grown[lines.len() as int]) is Everything);
    }
    if any_unbounded(grown) {
        let k = choose|k: int| 0 <= k < grown.len() && line_says(#[trigger] grown[k]) is Unbounded;
        if k < lines.len() {
            assert(line_says(lines[k]) is Unbounded);
        }
    }
    if any_unbounded(lines) {
        let k = choose|k: int| 0 <= k < lines.len() && line_says(#[trigger] lines[k]) is Unbounded;
        assert(line_says(grown[k]) is Unbounded);
    }
    if line_says(line) is Unbounded {
        assert(line_says(grown[lines.len() as int]) is Unbounded);
    }
}

/// `v` with `s` added, as a set.
proof fn lemma_byte_set_push(v: Seq<Vec<u8>>, s: Vec<u8>)
    ensures
        byte_set(v.push(s)) == byte_set(v).insert(s@),
{
    let w = v.push(s);
    assert(byte_set(w) =~= byte_set(v).insert(s@)) by {
        assert forall|x: Seq<u8>| byte_set(w).contains(x) implies byte_set(v).insert(s@).contains(x) by {
            let i = choose|i: int| 0 <= i < w.len() && w[i]@ == x;
            if i < v.len() {
                assert(v[i] == w[i]);
            }
        }
        assert forall|x: Seq<u8>| byte_set(v).insert(s@).contains(x) implies byte_set(w).contains(x) by {
            if x == s@ {
                assert(w[v.len() as int]@ == x);
            } else {
                let i = choose|i: int| 0 <= i < v.len() && v[i]@ == x;
                assert(w[i] == v[i]);
            }
        }
    }
}

/// The bytes of a slice as their own vector.
fn owned(s: &[u8]) -> (v: Vec<u8>)
    ensures
        v@ == s@,
{
    let v = vstd::slice::slice_to_vec(s);
    v
}

/// Reads one ignore file's body. A line qualifies when a slash anchors it to
/// this directory, at the front or in the middle, it carries no pattern or
/// escape byte, it is no comment, and it spells a path with no empty, `.`, or
/// `..` segment. A line that is bare `*` says the directory holds nothing
/// tracked, so the negations are read as the counter-evidence they are: one
/// that names a single literal entry keeps that entry, and one whose reach
/// this cannot bound drops the claim.
fn parse_body(body: &[u8]) -> (d: Declarations)
    ensures
        d@ == declarations_of(body_lines(body@)),
{
    let ghost lines = body_lines(body@);
    let mut files: Vec<Vec<u8>> = Vec::new();
    let mut directories: Vec<Vec<u8>> = Vec::new();
    let mut kept: Vec<Vec<u8>> = Vec::new();
    let mut empties = false;
    let mut unbounded = false;
    let n = body.len();
    let mut i: usize = 0;
    let ghost mut done: Seq<Seq<u8>> = seq![];
    proof {
        assert(byte_set(files@) =~= declarations_of(done).files);
        assert(byte_set(directories@) =~= declarations_of(done).directories);
        assert(byte_set(kept@) =~= declarations_of(done).kept);
        assert(done.push(body@).skip(0) =~= done.push(body@));
    }
    loop
        invariant
            n == body@.len(),
            i <= n,
            lines == body_lines(body@),
            lines == done + lines_from(body@, i as int),
            byte_set(files@) == declarations_of(done).files,
            byte_set(directories@) == declarations_of(done).directories,
            byte_set(kept@) == declarations_of(done).kept,
            empties == any_everything(done),
            unbounded == any_unbounded(done),
        decreases n - i,
    {
        let j = find_byte(body, i, n, 0x0a);
        proof {
            lemma_next_byte(body@, i as int, n as int, 0x0a);
        }
        let raw = vstd::slice::slice_subrange(body, i, j);
        let ghost tail = lines_from(body@, i as int);
        assert(tail[0] == raw@);
        let line = if raw.len() > 0 && raw[raw.len() - 1] == 0x0d {
            let l = vstd::slice::slice_subrange(raw, 0, raw.len() - 1);
            assert(l@ =~= raw@.drop_last());
            l
        } else {
            raw
        };
        let trimmed = trim_trailing_blanks(line);
        let ghost says = line_says(raw@);
        proof {
            lemma_says_push(done, raw@);
        }
        if trimmed.len() == 1 && trimmed[0] == 0x2a {
            assert(trimmed@ =~= ascii("*"@)) by {
                reveal_strlit("*");
            }
            empties = true;
        } else if trimmed.len() > 0 && trimmed[0] == 0x21 {
            proof {
                reveal_strlit("*");
                assert(trimmed@ != ascii("*"@)) by {
                    if trimmed@ == ascii("*"@) {
                        assert(trimmed@[0] == ascii("*"@)[0]);
                    }
                }
            }
            let negated = vstd::slice::slice_subrange(trimmed, 1, trimmed.len());
            assert(negated@ =~= trimmed@.skip(1));
            match kept_entry(negated) {
                Some(entry) => {
                    let ghost before = kept@;
                    kept.push(owned(entry));
                    proof {
                        lemma_byte_set_push(before, kept@.last());
                        assert(kept@ =~= before.push(kept@.last()));
                    }
                },
                None => {
                    unbounded = true;
                },
            }
        } else {
            proof {
                reveal_strlit("*");
                assert(trimmed@ != ascii("*"@)) by {
                    if trimmed@ == ascii("*"@) {
                        assert(trimmed@.len() == 1);
                        assert(trimmed@[0] == ascii("*"@)[0]);
                    }
                }
            }
            match qualifying(trimmed) {
                None => {},
                Some(anchored) => {
                    let spelled = strip_slash(anchored);
                    if well_formed(spelled) {
                        if anchored[anchored.len() - 1] == 0x2f {
                            let ghost before = directories@;
                            directories.push(owned(spelled));
                            proof {
                                lemma_byte_set_push(before, directories@.last());
                                assert(directories@ =~= before.push(directories@.last()));
                            }
                        } else {
                            let ghost before = files@;
                            files.push(owned(spelled));
                            proof {
                                lemma_byte_set_push(before, files@.last());
                                assert(files@ =~= before.push(files@.last()));
                            }
                        }
                    }
                },
            }
        }
        if j == n {
            proof {
                assert(tail =~= seq![raw@]);
                assert(lines =~= done.push(raw@));
                done = done.push(raw@);
            }
            return Declarations { files, directories, kept, whole_directory: empties && !unbounded };
        }
        proof {
            assert(tail =~= seq![raw@] + lines_from(body@, j + 1));
            assert(lines =~= done.push(raw@) + lines_from(body@, j + 1));
            done = done.push(raw@);
        }
        i = j + 1;
    }
}

impl Declarations {
    /// Reads one ignore file's body.
    pub fn parse(body: &[u8]) -> (d: Declarations)
        ensures
            d@ == declarations_of(body_lines(body@)),
    {
        parse_body(body)
    }

    /// Whether this file declares `relative`, a path spelled from the
    /// directory the ignore file sits in. A directory line answers for its
    /// descendants and the bare `*` for the whole directory, which are the
    /// only lines that cover more than one target.
    pub fn declares(&self, relative: &[u8]) -> (b: bool)
        ensures
            b == declares_spec(self@, relative@),
    {
        if self.whole_directory && !re_included(&self.kept, relative) {
            return true;
        }
        if holds(&self.files, relative) || holds(&self.directories, relative) {
            return true;
        }
        let mut k: usize = 0;
        while k < relative.len()
            invariant
                k <= relative@.len(),
                forall|i: int|
                    0 <= i < k && #[trigger] relative@[i] == 0x2f ==> !self@.directories.contains(
                        relative@.take(i),
                    ),
            decreases relative@.len() - k,
        {
            if relative[k] == 0x2f {
                let prefix = vstd::slice::slice_subrange(relative, 0, k);
                assert(prefix@ =~= relative@.take(k as int));
                if holds(&self.directories, prefix) {
                    return true;
                }
            }
            k = k + 1;
        }
        false
    }
}

/// Whether some line says `says`.
pub open spec fn said(lines: Seq<Seq<u8>>, says: LineSays) -> bool {
    exists|k: int| 0 <= k < lines.len() && line_says(#[trigger] lines[k]) == says
}

/// Lines joined by one line feed each.
pub open spec fn joined(lines: Seq<Seq<u8>>) -> Seq<u8>
    decreases lines.len(),
{
    if lines.len() == 0 {
        seq![]
    } else if lines.len() == 1 {
        lines[0]
    } else {
        lines[0] + seq![0x0au8] + joined(lines.drop_first())
    }
}

/// Whether no line holds a line feed.
pub open spec fn single_lines(lines: Seq<Seq<u8>>) -> bool {
    forall|k: int| 0 <= k < lines.len() ==> !has_byte(#[trigger] lines[k], 0, lines[k].len() as int, 0x0a)
}

proof fn lemma_next_byte_moved(p: Seq<u8>, b: Seq<u8>, k: int, hi: int, c: u8)
    requires
        0 <= k <= hi <= b.len(),
    ensures
        next_byte(p + b, p.len() + k, p.len() + hi, c) == next_byte(b, k, hi, c) + p.len(),
    decreases hi - k,
{
    if k < hi {
        assert((p + b)[p.len() + k] == b[k]);
        lemma_next_byte_moved(p, b, k + 1, hi, c);
    }
}

proof fn lemma_next_byte_prefix(a: Seq<u8>, q: Seq<u8>, i: int, c: u8)
    requires
        0 <= i <= a.len(),
        next_byte(a, i, a.len() as int, c) < a.len(),
    ensures
        next_byte(a + q, i, (a + q).len() as int, c) == next_byte(a, i, a.len() as int, c),
    decreases a.len() - i,
{
    assert((a + q)[i] == a[i]);
    if a[i] != c {
        lemma_next_byte_prefix(a, q, i + 1, c);
    }
}

proof fn lemma_next_byte_none(a: Seq<u8>, q: Seq<u8>, i: int, c: u8)
    requires
        0 <= i <= a.len(),
        next_byte(a, i, a.len() as int, c) >= a.len(),
        q.len() > 0,
        q[0] == c,
    ensures
        next_byte(a + q, i, (a + q).len() as int, c) == a.len(),
    decreases a.len() - i,
{
    if i < a.len() {
        assert((a + q)[i] == a[i]);
        lemma_next_byte_none(a, q, i + 1, c);
    } else {
        assert((a + q)[i] == q[0]);
    }
}

/// The lines from a point of a suffix are the suffix's own lines.
proof fn lemma_lines_moved(p: Seq<u8>, b: Seq<u8>, k: int)
    requires
        0 <= k <= b.len(),
    ensures
        lines_from(p + b, p.len() + k) == lines_from(b, k),
    decreases b.len() - k,
{
    let s = p + b;
    let i = p.len() + k;
    lemma_next_byte_moved(p, b, k, b.len() as int, 0x0a);
    lemma_next_byte(b, k, b.len() as int, 0x0a);
    let j = next_byte(b, k, b.len() as int, 0x0a);
    if j >= b.len() {
        assert(s.subrange(i, s.len() as int) =~= b.subrange(k, b.len() as int));
    } else {
        assert(s.subrange(i, j + p.len()) =~= b.subrange(k, j));
        lemma_lines_moved(p, b, j + 1);
    }
}

proof fn lemma_lines_split_from(a: Seq<u8>, b: Seq<u8>, i: int)
    requires
        0 <= i <= a.len(),
    ensures
        lines_from(a + seq![0x0au8] + b, i) == lines_from(a, i) + lines_from(b, 0),
    decreases a.len() - i,
{
    let q = seq![0x0au8] + b;
    let s = a + q;
    assert(a + seq![0x0au8] + b =~= s);
    lemma_next_byte(a, i, a.len() as int, 0x0a);
    let ja = next_byte(a, i, a.len() as int, 0x0a);
    if ja < a.len() {
        lemma_next_byte_prefix(a, q, i, 0x0a);
        assert(s.subrange(i, ja) =~= a.subrange(i, ja));
        lemma_lines_split_from(a, b, ja + 1);
        assert(lines_from(a, i) == seq![a.subrange(i, ja)] + lines_from(a, ja + 1));
        assert(lines_from(s, i) == seq![s.subrange(i, ja)] + lines_from(s, ja + 1));
    } else {
        lemma_next_byte_none(a, q, i, 0x0a);
        assert(s.subrange(i, a.len() as int) =~= a.subrange(i, a.len() as int));
        assert(a + seq![0x0au8] + b =~= (a + seq![0x0au8]) + b);
        lemma_lines_moved(a + seq![0x0au8], b, 0);
        assert(lines_from(s, i) == seq![s.subrange(i, a.len() as int)] + lines_from(s, a.len() + 1int));
    }
}

/// The lines of two bodies joined by a line feed are the first body's lines
/// followed by the second's.
pub proof fn lemma_body_lines_concat(a: Seq<u8>, b: Seq<u8>)
    ensures
        body_lines(a + seq![0x0au8] + b) == body_lines(a) + body_lines(b),
{
    lemma_lines_split_from(a, b, 0);
}

/// Lines holding no line feed, joined, read back as those lines.
pub proof fn lemma_body_lines_joined(lines: Seq<Seq<u8>>)
    requires
        lines.len() > 0,
        single_lines(lines),
    ensures
        body_lines(joined(lines)) == lines,
    decreases lines.len(),
{
    let l = lines[0];
    assert(!has_byte(l, 0, l.len() as int, 0x0a));
    lemma_next_byte(l, 0, l.len() as int, 0x0a);
    assert(body_lines(l) == seq![l]) by {
        assert(l.subrange(0, l.len() as int) =~= l);
    }
    if lines.len() > 1 {
        let rest = lines.drop_first();
        assert forall|k: int| 0 <= k < rest.len() implies !has_byte(#[trigger] rest[k], 0, rest[k].len() as int, 0x0a) by {
            assert(rest[k] == lines[k + 1]);
        }
        lemma_body_lines_joined(rest);
        lemma_body_lines_concat(l, joined(rest));
        assert(seq![l] + rest =~= lines);
    }
}

proof fn lemma_said_same(lines: Seq<Seq<u8>>, perm: Seq<Seq<u8>>, says: LineSays)
    requires
        lines.to_multiset() == perm.to_multiset(),
        said(lines, says),
    ensures
        said(perm, says),
{
    lines.to_multiset_ensures();
    perm.to_multiset_ensures();
    let k = choose|k: int| 0 <= k < lines.len() && line_says(#[trigger] lines[k]) == says;
    let x = lines[k];
    assert(lines.contains(x));
    assert(lines.to_multiset().count(x) > 0);
    assert(perm.to_multiset().count(x) > 0);
    assert(perm.contains(x));
    let m = choose|m: int| 0 <= m < perm.len() && perm[m] == x;
    assert(line_says(perm[m]) == says);
}

/// What the lines say together depends only on which lines there are, not
/// on their order.
pub proof fn lemma_declarations_ignore_order(lines: Seq<Seq<u8>>, perm: Seq<Seq<u8>>)
    requires
        lines.to_multiset() == perm.to_multiset(),
    ensures
        declarations_of(lines) == declarations_of(perm),
{
    assert forall|says: LineSays| #[trigger] said(lines, says) == said(perm, says) by {
        if said(lines, says) {
            lemma_said_same(lines, perm, says);
        }
        if said(perm, says) {
            lemma_said_same(perm, lines, says);
        }
    }
    let a = declarations_of(lines);
    let b = declarations_of(perm);
    assert(a.files =~= b.files) by {
        assert forall|p: Seq<u8>| a.files.contains(p) == b.files.contains(p) by {
            assert(a.files.contains(p) == said(lines, LineSays::File(p)));
            assert(b.files.contains(p) == said(perm, LineSays::File(p)));
        }
    }
    assert(a.directories =~= b.directories) by {
        assert forall|p: Seq<u8>| a.directories.contains(p) == b.directories.contains(p) by {
            assert(a.directories.contains(p) == said(lines, LineSays::Directory(p)));
            assert(b.directories.contains(p) == said(perm, LineSays::Directory(p)));
        }
    }
    assert(a.kept =~= b.kept) by {
        assert forall|p: Seq<u8>| a.kept.contains(p) == b.kept.contains(p) by {
            assert(a.kept.contains(p) == said(lines, LineSays::Keeps(p)));
            assert(b.kept.contains(p) == said(perm, LineSays::Keeps(p)));
        }
    }
    assert((exists|k: int| 0 <= k < lines.len() && line_says(#[trigger] lines[k]) is Everything) == said(lines, LineSays::Everything));
    assert((exists|k: int| 0 <= k < perm.len() && line_says(#[trigger] perm[k]) is Everything) == said(perm, LineSays::Everything));
    assert((exists|k: int| 0 <= k < lines.len() && line_says(#[trigger] lines[k]) is Unbounded) == said(lines, LineSays::Unbounded));
    assert((exists|k: int| 0 <= k < perm.len() && line_says(#[trigger] perm[k]) is Unbounded) == said(perm, LineSays::Unbounded));
}

/// The order of an ignore file's lines never matters: any reordering of the
/// same lines declares the same paths.
pub proof fn lemma_line_order_never_matters(lines: Seq<Seq<u8>>, perm: Seq<Seq<u8>>)
    requires
        lines.len() > 0,
        single_lines(lines),
        lines.to_multiset() == perm.to_multiset(),
    ensures
        declarations_of(body_lines(joined(lines))) == declarations_of(body_lines(joined(perm))),
{
    lines.to_multiset_ensures();
    perm.to_multiset_ensures();
    assert forall|k: int| 0 <= k < perm.len() implies !has_byte(#[trigger] perm[k], 0, perm[k].len() as int, 0x0a) by {
        assert(perm.contains(perm[k]));
        assert(lines.to_multiset().count(perm[k]) > 0);
        let m = choose|m: int| 0 <= m < lines.len() && lines[m] == perm[k];
        assert(!has_byte(lines[m], 0, lines[m].len() as int, 0x0a));
    }
    lemma_body_lines_joined(lines);
    lemma_body_lines_joined(perm);
    lemma_declarations_ignore_order(lines, perm);
}

/// Whether no line of a body is the bare `*`.
pub open spec fn never_everything(body: Seq<u8>) -> bool {
    forall|k: int| 0 <= k < body_lines(body).len() ==> !(line_says(#[trigger] body_lines(body)[k]) is Everything)
}

proof fn lemma_said_concat(la: Seq<Seq<u8>>, lb: Seq<Seq<u8>>, says: LineSays)
    ensures
        said(la + lb, says) == (said(la, says) || said(lb, says)),
{
    let l = la + lb;
    if said(l, says) {
        let k = choose|k: int| 0 <= k < l.len() && line_says(#[trigger] l[k]) == says;
        if k < la.len() {
            assert(l[k] == la[k]);
        } else {
            assert(l[k] == lb[k - la.len()]);
        }
    }
    if said(la, says) {
        let k = choose|k: int| 0 <= k < la.len() && line_says(#[trigger] la[k]) == says;
        assert(l[k] == la[k]);
    }
    if said(lb, says) {
        let k = choose|k: int| 0 <= k < lb.len() && line_says(#[trigger] lb[k]) == says;
        assert(l[k + la.len()] == lb[k]);
    }
}

/// Two ignore bodies with no bare `*` line, joined by a line feed, declare
/// exactly what either of them declares.
#[verifier::rlimit(30)]
pub proof fn lemma_joined_bodies_declare_either(a: Seq<u8>, b: Seq<u8>, relative: Seq<u8>)
    requires
        never_everything(a),
        never_everything(b),
    ensures
        declares_spec(declarations_of(body_lines(a + seq![0x0au8] + b)), relative)
            == (declares_spec(declarations_of(body_lines(a)), relative) || declares_spec(
            declarations_of(body_lines(b)),
            relative,
        )),
{
    lemma_body_lines_concat(a, b);
    let la = body_lines(a);
    let lb = body_lines(b);
    let l = la + lb;
    let d = declarations_of(l);
    let da = declarations_of(la);
    let db = declarations_of(lb);
    assert(!said(la, LineSays::Everything));
    assert(!said(lb, LineSays::Everything));
    lemma_said_concat(la, lb, LineSays::Everything);
    assert(!d.whole_directory) by {
        assert((exists|k: int| 0 <= k < l.len() && line_says(#[trigger] l[k]) is Everything) == said(l, LineSays::Everything));
    }
    assert(!da.whole_directory) by {
        assert((exists|k: int| 0 <= k < la.len() && line_says(#[trigger] la[k]) is Everything) == said(la, LineSays::Everything));
    }
    assert(!db.whole_directory) by {
        assert((exists|k: int| 0 <= k < lb.len() && line_says(#[trigger] lb[k]) is Everything) == said(lb, LineSays::Everything));
    }
    assert forall|p: Seq<u8>| #[trigger] d.files.contains(p) == (da.files.contains(p) || db.files.contains(p)) by {
        lemma_said_concat(la, lb, LineSays::File(p));
        assert(d.files.contains(p) == said(l, LineSays::File(p)));
        assert(da.files.contains(p) == said(la, LineSays::File(p)));
        assert(db.files.contains(p) == said(lb, LineSays::File(p)));
    }
    assert forall|p: Seq<u8>| #[trigger] d.directories.contains(p) == (da.directories.contains(p) || db.directories.contains(p)) by {
        lemma_said_concat(la, lb, LineSays::Directory(p));
        assert(d.directories.contains(p) == said(l, LineSays::Directory(p)));
        assert(da.directories.contains(p) == said(la, LineSays::Directory(p)));
        assert(db.directories.contains(p) == said(lb, LineSays::Directory(p)));
    }
    assert(d.files.contains(relative) == (da.files.contains(relative) || db.files.contains(relative)));
    assert(d.directories.contains(relative) == (da.directories.contains(relative) || db.directories.contains(relative)));
    if exists|i: int| 0 <= i < relative.len() && #[trigger] relative[i] == 0x2f && d.directories.contains(relative.take(i)) {
        let i = choose|i: int| 0 <= i < relative.len() && #[trigger] relative[i] == 0x2f && d.directories.contains(relative.take(i));
        assert(da.directories.contains(relative.take(i)) || db.directories.contains(relative.take(i)));
    }
    if exists|i: int| 0 <= i < relative.len() && #[trigger] relative[i] == 0x2f && da.directories.contains(relative.take(i)) {
        let i = choose|i: int| 0 <= i < relative.len() && #[trigger] relative[i] == 0x2f && da.directories.contains(relative.take(i));
        assert(d.directories.contains(relative.take(i)));
    }
    if exists|i: int| 0 <= i < relative.len() && #[trigger] relative[i] == 0x2f && db.directories.contains(relative.take(i)) {
        let i = choose|i: int| 0 <= i < relative.len() && #[trigger] relative[i] == 0x2f && db.directories.contains(relative.take(i));
        assert(d.directories.contains(relative.take(i)));
    }
}

} // verus!
