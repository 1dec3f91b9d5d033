//! A tree listing in path order: its entries, what lies beneath a
//! directory, and what the listing holds at a path.

use crate::bytes::{has_prefix, same_bytes, starts_with};
use crate::discovery::GitMode;
use crate::order::strictly_sorted;
use vstd::prelude::*;

verus! {

/// One entry of a tree listing: its path, mode and object identity.
pub struct TreeEntry {
    pub path: Vec<u8>,
    pub mode: GitMode,
    pub oid: Vec<u8>,
}

/// A file beneath a directory: its path relative to the directory, its mode
/// and its object identity.
pub type FileView = (Seq<u8>, GitMode, Seq<u8>);

/// The entries' paths.
pub open spec fn entry_paths(v: Seq<TreeEntry>) -> Seq<Seq<u8>> {
    v.map_values(|e: TreeEntry| e.path@)
}

/// A directory's path with the separator after it.
pub open spec fn under(dir: Seq<u8>) -> Seq<u8> {
    dir.push(0x2fu8)
}

/// The files beneath `dir`, spelled relative to it, in listing order.
pub open spec fn beneath(v: Seq<TreeEntry>, dir: Seq<u8>) -> Seq<FileView>
    decreases v.len(),
{
    if v.len() == 0 {
        seq![]
    } else {
        let e = v.last();
        beneath(v.drop_last(), dir) + if starts_with(e.path@, under(dir)) && e.mode != GitMode::Tree {
            seq![(e.path@.skip(under(dir).len() as int), e.mode, e.oid@)]
        } else {
            seq![]
        }
    }
}

/// Whether some entry has path `p`.
pub open spec fn holds(v: Seq<TreeEntry>, p: Seq<u8>) -> bool {
    exists|k: int| 0 <= k < v.len() && (#[trigger] v[k]).path@ == p
}

/// The files beneath a directory, as values.
pub open spec fn file_views(v: Seq<(Vec<u8>, GitMode, Vec<u8>)>) -> Seq<FileView> {
    v.map_values(|f: (Vec<u8>, GitMode, Vec<u8>)| (f.0@, f.1, f.2@))
}

/// A copy of some bytes.
pub fn copy_bytes(p: &[u8]) -> (r: Vec<u8>)
    ensures
        r@ == p@,
{
    let mut r: Vec<u8> = Vec::new();
    for i in 0..p.len()
        invariant
            r@ == p@.take(i as int),
    {
        r.push(p[i]);
        assert(p@.take(i + 1) =~= p@.take(i as int).push(p@[i as int]));
    }
    assert(p@.take(p@.len() as int) =~= p@);
    r
}

/// The bytes of `[lo, hi)`.
pub fn copy_slice(p: &[u8], lo: usize, hi: usize) -> (r: Vec<u8>)
    requires
        lo <= hi <= p@.len(),
    ensures
        r@ == p@.subrange(lo as int, hi as int),
{
    let mut r: Vec<u8> = Vec::new();
    for i in lo..hi
        invariant
            lo <= i <= hi <= p@.len(),
            r@ == p@.subrange(lo as int, i as int),
    {
        r.push(p[i]);
        assert(p@.subrange(lo as int, i + 1) =~= p@.subrange(lo as int, i as int).push(p@[i as int]));
    }
    r
}

/// The position of the entry at `p`, if there is one.
pub fn find_entry(v: &Vec<TreeEntry>, p: &[u8]) -> (r: Option<usize>)
    ensures
        r matches Some(k) ==> k < v@.len() && v@[k as int].path@ == p@,
        r is None ==> !holds(v@, p@),
{
    for k in 0..v.len()
        invariant
            forall|m: int| 0 <= m < k ==> (#[trigger] v@[m]).path@ != p@,
    {
        if same_bytes(&v[k].path, p) {
            return Some(k);
        }
    }
    None
}

/// A directory's path with the separator after it.
pub fn under_exec(dir: &[u8]) -> (r: Vec<u8>)
    ensures
        r@ == under(dir@),
{
    let mut r = copy_bytes(dir);
    r.push(0x2fu8);
    r
}

/// The files beneath `dir`, spelled relative to it, in listing order.
pub fn beneath_of(v: &Vec<TreeEntry>, dir: &[u8]) -> (r: Vec<(Vec<u8>, GitMode, Vec<u8>)>)
    ensures
        file_views(r@) == beneath(v@, dir@),
{
    let prefix = under_exec(dir);
    let mut r: Vec<(Vec<u8>, GitMode, Vec<u8>)> = Vec::new();
    for k in 0..v.len()
        invariant
            prefix@ == under(dir@),
            file_views(r@) == beneath(v@.take(k as int), dir@),
    {
        let e = &v[k];
        assert(v@.take(k + 1).drop_last() =~= v@.take(k as int));
        assert(v@.take(k + 1).last() == v@[k as int]);
        let ghost pre = file_views(r@);
        if has_prefix(&e.path, &prefix) && e.mode != GitMode::Tree {
            let rel = copy_slice(&e.path, prefix.len(), e.path.len());
            assert(rel@ =~= e.path@.skip(under(dir@).len() as int));
            let oid = copy_bytes(&e.oid);
            r.push((rel, e.mode, oid));
            assert(file_views(r@) =~= pre.push((rel@, e.mode, oid@)));
        }
    }
    assert(v@.take(v@.len() as int) =~= v@);
    r
}


/// Whether some entry lies beneath `p`, making it a directory.
pub open spec fn implied(v: Seq<TreeEntry>, p: Seq<u8>) -> bool {
    exists|k: int| 0 <= k < v.len() && starts_with((#[trigger] v[k]).path@, under(p))
}

/// What a listing holds at a path: an entry of its own, or a directory
/// implied by the entries beneath it.
#[derive(Clone, Copy, Debug, PartialEq, Eq, Structural)]
pub enum Located {
    Entry(GitMode),
    ImpliedTree,
}

/// What the listing holds at `p`, if anything.
pub open spec fn located(v: Seq<TreeEntry>, p: Seq<u8>) -> Option<Located> {
    if holds(v, p) {
        let k = choose|k: int| 0 <= k < v.len() && (#[trigger] v[k]).path@ == p;
        Some(Located::Entry(v[k].mode))
    } else if implied(v, p) {
        Some(Located::ImpliedTree)
    } else {
        None
    }
}

/// What the listing holds at `p`, if anything. Paths are listed once each.
pub fn locate(v: &Vec<TreeEntry>, p: &[u8]) -> (r: Option<Located>)
    requires
        strictly_sorted(entry_paths(v@)),
    ensures
        r == located(v@, p@),
{
    match find_entry(v, p) {
        Some(k) => {
            proof {
                let c = choose|c: int| 0 <= c < v@.len() && (#[trigger] v@[c]).path@ == p@;
                if c != k {
                    assert(entry_paths(v@)[c] == v@[c].path@);
                    assert(entry_paths(v@)[k as int] == v@[k as int].path@);
                    crate::order::lemma_sorts_before_irreflexive(p@);
                }
            }
            Some(Located::Entry(v[k].mode))
        },
        None => {
            let prefix = under_exec(p);
            for k in 0..v.len()
                invariant
                    prefix@ == under(p@),
                    !holds(v@, p@),
                    forall|m: int| 0 <= m < k ==> !starts_with((#[trigger] v@[m]).path@, under(p@)),
            {
                if has_prefix(&v[k].path, &prefix) {
                    assert(starts_with(v@[k as int].path@, under(p@)));
                    return Some(Located::ImpliedTree);
                }
            }
            None
        },
    }
}

} // verus!
