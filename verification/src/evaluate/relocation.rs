//! The respelling that follows a file the change moved: a plain relative
//! path that reached the missed file from beside its document is rewritten,
//! relative the same way, to the one path the change moved identical bytes
//! to.

use crate::text::{copy_range, find, find_char, lemma_find};
use vstd::prelude::*;

verus! {

/// The pieces of `t[i..]` between slashes, empty ones included.
pub open spec fn segments_from(t: Seq<char>, i: int) -> Seq<Seq<char>>
    decreases t.len() - i,
{
    if i < 0 || i > t.len() {
        seq![]
    } else {
        let j = find(t, i, t.len() as int, '/');
        if j >= t.len() {
            seq![t.subrange(i, t.len() as int)]
        } else {
            proof {
                lemma_find(t, i, t.len() as int, '/');
            }
            seq![t.subrange(i, j)] + segments_from(t, j + 1)
        }
    }
}

/// The pieces of a path between slashes, empty ones included.
pub open spec fn segments(t: Seq<char>) -> Seq<Seq<char>> {
    segments_from(t, 0)
}

/// The pieces that are not empty, in order.
pub open spec fn nonempty(s: Seq<Seq<char>>) -> Seq<Seq<char>>
    decreases s.len(),
{
    if s.len() == 0 {
        seq![]
    } else {
        nonempty(s.drop_last()) + if s.last().len() > 0 { seq![s.last()] } else { seq![] }
    }
}

/// How many leading pieces two paths share.
pub open spec fn shared(a: Seq<Seq<char>>, b: Seq<Seq<char>>) -> nat
    decreases a.len(),
{
    if a.len() == 0 || b.len() == 0 || a[0] != b[0] {
        0
    } else {
        1 + shared(a.drop_first(), b.drop_first())
    }
}

/// Pieces joined by slashes.
pub open spec fn join_slash(w: Seq<Seq<char>>) -> Seq<char>
    decreases w.len(),
{
    if w.len() == 0 {
        seq![]
    } else if w.len() == 1 {
        w[0]
    } else {
        join_slash(w.drop_last()) + seq!['/'] + w.last()
    }
}

/// What a destination names before its first `#` or `?`.
pub open spec fn first_part(raw: Seq<char>) -> Seq<char> {
    let h = find(raw, 0, raw.len() as int, '#');
    let q = find(raw, 0, raw.len() as int, '?');
    raw.take(if h < q { h } else { q })
}

/// A plain relative spelling: not empty, not rooted, and free of the
/// characters that would need quoting.
pub open spec fn plain(t: Seq<char>) -> bool {
    &&& t.len() > 0
    &&& t[0] != '/'
    &&& forall|k: int| 0 <= k < t.len() ==> !(#[trigger] t[k] == '%' || t[k] == ' ' || t[k] == '(' || t[k] == ')' || t[k] == '<' || t[k] == '>' || t[k] == '\\' || t[k] == ':')
}

/// Whether a spelling starts `./`.
pub open spec fn dot_slash(t: Seq<char>) -> bool {
    t.len() >= 2 && t[0] == '.' && t[1] == '/'
}

/// Whether a spelling starts `../`.
pub open spec fn dot_dot_slash(t: Seq<char>) -> bool {
    t.len() >= 3 && t[0] == '.' && t[1] == '.' && t[2] == '/'
}

/// The relative spelling from a directory to a path: up out of the
/// directory's pieces the path does not share, then down its remaining
/// pieces.
pub open spec fn relative_path(beside: Seq<char>, target: Seq<char>) -> Seq<char> {
    let from = nonempty(segments(beside));
    let to = segments(target);
    let k = shared(from, to);
    join_slash(Seq::new((from.len() - k) as nat, |i: int| seq!['.', '.']) + to.skip(k as int))
}

/// The respelling a moved file gives a destination written beside its
/// document; `./` is kept where the author wrote it and the new spelling
/// does not climb.
pub open spec fn relocation_of(raw: Seq<char>, beside: Seq<char>, target: Seq<char>) -> Option<Seq<char>> {
    let part = first_part(raw);
    if !plain(part) || !plain(target) {
        None
    } else {
        let relative = relative_path(beside, target);
        Some(if dot_slash(part) && !dot_dot_slash(relative) { seq!['.', '/'] + relative } else { relative })
    }
}

/// The characters views of a list of pieces.
pub open spec fn piece_views(v: Seq<Vec<char>>) -> Seq<Seq<char>> {
    v.map_values(|p: Vec<char>| p@)
}

/// The pieces of a path between slashes, empty ones included.
fn split_slash(t: &Vec<char>) -> (r: Vec<Vec<char>>)
    ensures
        piece_views(r@) == segments(t@),
{
    let mut r: Vec<Vec<char>> = Vec::new();
    let mut i: usize = 0;
    loop
        invariant
            i <= t@.len(),
            piece_views(r@) + segments_from(t@, i as int) == segments(t@),
        decreases t@.len() - i,
    {
        let j = find_char(t.as_slice(), i, t.len(), '/');
        proof {
            lemma_find(t@, i as int, t@.len() as int, '/');
        }
        let piece = copy_range(t.as_slice(), i, j);
        let ghost pre = piece_views(r@);
        r.push(piece);
        assert(piece_views(r@) =~= pre.push(piece@));
        if j == t.len() {
            assert(segments_from(t@, i as int) =~= seq![t@.subrange(i as int, t@.len() as int)]);
            assert(piece_views(r@) =~= pre + segments_from(t@, i as int));
            return r;
        }
        assert(segments_from(t@, i as int) == seq![t@.subrange(i as int, j as int)] + segments_from(t@, j + 1));
        assert(pre + segments_from(t@, i as int) =~= piece_views(r@) + segments_from(t@, j + 1));
        i = j + 1;
    }
}

/// The pieces that are not empty, in order.
fn keep_nonempty(s: &Vec<Vec<char>>) -> (r: Vec<Vec<char>>)
    ensures
        piece_views(r@) == nonempty(piece_views(s@)),
{
    let mut r: Vec<Vec<char>> = Vec::new();
    for k in 0..s.len()
        invariant
            piece_views(r@) == nonempty(piece_views(s@).take(k as int)),
    {
        assert(piece_views(s@).take(k + 1).drop_last() =~= piece_views(s@).take(k as int));
        assert(piece_views(s@).take(k + 1).last() == s@[k as int]@);
        if s[k].len() > 0 {
            let ghost pre = piece_views(r@);
            r.push(copy_range(s[k].as_slice(), 0, s[k].len()));
            assert(s@[k as int]@.subrange(0, s@[k as int]@.len() as int) =~= s@[k as int]@);
            assert(piece_views(r@) =~= pre.push(s@[k as int]@));
        }
    }
    assert(piece_views(s@).take(s@.len() as int) =~= piece_views(s@));
    r
}

/// Whether two pieces are the same.
fn same_piece(a: &Vec<char>, b: &Vec<char>) -> (r: bool)
    ensures
        r == (a@ == b@),
{
    if a.len() != b.len() {
        return false;
    }
    for k in 0..a.len()
        invariant
            a@.len() == b@.len(),
            forall|m: int| 0 <= m < k ==> a@[m] == b@[m],
    {
        if a[k] != b[k] {
            return false;
        }
    }
    assert(a@ =~= b@);
    true
}

proof fn lemma_shared_step(a: Seq<Seq<char>>, b: Seq<Seq<char>>, k: int)
    requires
        0 <= k,
        k < a.len(),
        k < b.len(),
        forall|m: int| 0 <= m < k ==> a[m] == b[m],
    ensures
        shared(a, b) == if a[k] == b[k] { shared(a.skip(k + 1), b.skip(k + 1)) + k + 1 } else { k },
    decreases k,
{
    if k > 0 {
        lemma_shared_step(a.drop_first(), b.drop_first(), k - 1);
        assert(a.drop_first().skip(k) =~= a.skip(k + 1));
        assert(b.drop_first().skip(k) =~= b.skip(k + 1));
    }
}

proof fn lemma_shared_end(a: Seq<Seq<char>>, b: Seq<Seq<char>>, k: int)
    requires
        0 <= k,
        k == a.len() || k == b.len(),
        k <= a.len(),
        k <= b.len(),
        forall|m: int| 0 <= m < k ==> a[m] == b[m],
    ensures
        shared(a, b) == k,
    decreases k,
{
    if k > 0 {
        lemma_shared_end(a.drop_first(), b.drop_first(), k - 1);
    }
}

/// How many leading pieces two paths share.
fn shared_count(a: &Vec<Vec<char>>, b: &Vec<Vec<char>>) -> (k: usize)
    ensures
        k == shared(piece_views(a@), piece_views(b@)),
        k <= a@.len(),
        k <= b@.len(),
{
    let ghost x = piece_views(a@);
    let ghost y = piece_views(b@);
    let mut k: usize = 0;
    while k < a.len() && k < b.len() && same_piece(&a[k], &b[k])
        invariant
            x == piece_views(a@),
            y == piece_views(b@),
            k <= a@.len(),
            k <= b@.len(),
            forall|m: int| 0 <= m < k ==> x[m] == y[m],
        decreases a@.len() - k,
    {
        assert(x[k as int] == a@[k as int]@ && y[k as int] == b@[k as int]@);
        k = k + 1;
    }
    proof {
        if k < a@.len() && k < b@.len() {
            assert(x[k as int] == a@[k as int]@ && y[k as int] == b@[k as int]@);
            lemma_shared_step(x, y, k as int);
        } else {
            lemma_shared_end(x, y, k as int);
        }
    }
    k
}

/// Pieces joined by slashes.
fn join_pieces(w: &Vec<Vec<char>>) -> (s: String)
    ensures
        s@ == join_slash(piece_views(w@)),
{
    let mut s = String::new();
    for k in 0..w.len()
        invariant
            s@ == join_slash(piece_views(w@).take(k as int)),
    {
        let ghost prev = piece_views(w@).take(k as int);
        let ghost next = piece_views(w@).take(k + 1);
        assert(next.drop_last() =~= prev);
        assert(next.last() == w@[k as int]@);
        if k > 0 {
            s.push('/');
        }
        let piece = &w[k];
        let ghost base = s@;
        for m in 0..piece.len()
            invariant
                s@ == base + piece@.take(m as int),
        {
            s.push(piece[m]);
            assert(piece@.take(m + 1) =~= piece@.take(m as int).push(piece@[m as int]));
            assert(base + piece@.take(m + 1) =~= (base + piece@.take(m as int)).push(piece@[m as int]));
        }
        assert(piece@.take(piece@.len() as int) =~= piece@);
        proof {
            if k == 0 {
                assert(prev.len() == 0);
                assert(base =~= Seq::<char>::empty());
                assert(s@ =~= w@[0]@);
            } else {
                assert(s@ =~= join_slash(prev) + seq!['/'] + w@[k as int]@);
            }
        }
    }
    assert(piece_views(w@).take(w@.len() as int) =~= piece_views(w@));
    s
}

/// The characters of a text.
fn chars(t: &str) -> (v: Vec<char>)
    ensures
        v@ == t@,
{
    crate::text::chars_of(t)
}

/// Whether a spelling is plain.
fn is_plain(t: &Vec<char>) -> (r: bool)
    ensures
        r == plain(t@),
{
    if t.len() == 0 || t[0] == '/' {
        return false;
    }
    for k in 0..t.len()
        invariant
            forall|m: int| 0 <= m < k ==> !(#[trigger] t@[m] == '%' || t@[m] == ' ' || t@[m] == '(' || t@[m] == ')' || t@[m] == '<' || t@[m] == '>' || t@[m] == '\\' || t@[m] == ':'),
    {
        let c = t[k];
        if c == '%' || c == ' ' || c == '(' || c == ')' || c == '<' || c == '>' || c == '\\' || c == ':' {
            return false;
        }
    }
    true
}

/// The respelling a moved file gives a destination. `raw` is the
/// destination as written, `beside` the directory of the document that
/// holds it, and `target` the one path the change moved identical bytes to;
/// the written path reached the missed file from beside the document.
pub fn relocation_respelling(raw: &str, beside: &str, target: &str) -> (r: Option<String>)
    ensures
        match r {
            Some(s) => relocation_of(raw@, beside@, target@) == Some(s@),
            None => relocation_of(raw@, beside@, target@) is None,
        },
{
    let rc = chars(raw);
    let h = find_char(rc.as_slice(), 0, rc.len(), '#');
    let q = find_char(rc.as_slice(), 0, rc.len(), '?');
    let end = if h < q { h } else { q };
    let part = copy_range(rc.as_slice(), 0, end);
    assert(part@ =~= first_part(raw@));
    let tc = chars(target);
    if !is_plain(&part) || !is_plain(&tc) {
        return None;
    }
    let from = keep_nonempty(&split_slash(&chars(beside)));
    let to = split_slash(&tc);
    let k = shared_count(&from, &to);
    let mut written: Vec<Vec<char>> = Vec::new();
    let ups = from.len() - k;
    for u in 0..ups
        invariant
            piece_views(written@) == Seq::new(u as nat, |i: int| seq!['.', '.']),
    {
        let mut up: Vec<char> = Vec::new();
        up.push('.');
        up.push('.');
        assert(up@ =~= seq!['.', '.']);
        let ghost pre = piece_views(written@);
        written.push(up);
        assert(piece_views(written@) =~= pre.push(seq!['.', '.']));
        assert(piece_views(written@) =~= Seq::new((u + 1) as nat, |i: int| seq!['.', '.']));
    }
    let ghost climbed = piece_views(written@);
    for m in k..to.len()
        invariant
            k <= m <= to@.len(),
            piece_views(written@) == climbed + piece_views(to@).subrange(k as int, m as int),
    {
        let ghost pre = piece_views(written@);
        let piece = copy_range(to[m].as_slice(), 0, to[m].len());
        assert(piece@ =~= to@[m as int]@);
        written.push(piece);
        assert(piece_views(written@) =~= pre.push(to@[m as int]@));
        assert(piece_views(to@).subrange(k as int, m + 1) =~= piece_views(to@).subrange(k as int, m as int).push(to@[m as int]@));
        assert(piece_views(written@) =~= climbed + piece_views(to@).subrange(k as int, m + 1));
    }
    assert(piece_views(to@).subrange(k as int, to@.len() as int) =~= piece_views(to@).skip(k as int));
    let relative = join_pieces(&written);
    let rel = chars(relative.as_str());
    let climbs = rel.len() >= 3 && rel[0] == '.' && rel[1] == '.' && rel[2] == '/';
    let dotted = part.len() >= 2 && part[0] == '.' && part[1] == '/';
    if dotted && !climbs {
        let mut s = String::new();
        s.push('.');
        s.push('/');
        let ghost base = s@;
        for m in 0..rel.len()
            invariant
                s@ == base + rel@.take(m as int),
        {
            s.push(rel[m]);
            assert(rel@.take(m + 1) =~= rel@.take(m as int).push(rel@[m as int]));
            assert(base + rel@.take(m + 1) =~= (base + rel@.take(m as int)).push(rel@[m as int]));
        }
        assert(rel@.take(rel@.len() as int) =~= rel@);
        assert(base =~= seq!['.', '/']);
        Some(s)
    } else {
        Some(relative)
    }
}

} // verus!
