//! Moved directories: a removed directory's unique counterpart when the
//! candidate names files only, as an index does.

use crate::bytes::{ends_with, has_suffix, same_bytes};
use crate::discovery::GitMode;
use crate::tree::{
    beneath, beneath_of, copy_bytes, copy_slice, entry_paths, file_views, find_entry, holds,
    FileView, TreeEntry,
};
use crate::order::{insert_sorted, lemma_is_listing, listing, strictly_sorted, views};
use vstd::prelude::*;

verus! {

/// Whether the candidate has nothing at or beneath `p`.
pub open spec fn gone(candidate: Seq<TreeEntry>, p: Seq<u8>) -> bool {
    !holds(candidate, p) && beneath(candidate, p).len() == 0
}

/// How many base trees with identity `oid` the candidate no longer has.
pub open spec fn removed_count(base: Seq<TreeEntry>, candidate: Seq<TreeEntry>, oid: Seq<u8>) -> nat
    decreases base.len(),
{
    if base.len() == 0 {
        0
    } else {
        let e = base.last();
        removed_count(base.drop_last(), candidate, oid) + if e.mode == GitMode::Tree && e.oid@ == oid && gone(candidate, e.path@) {
            1nat
        } else {
            0nat
        }
    }
}

/// The directory a path holding `first` at its end would be, if it does.
pub open spec fn stem_of(path: Seq<u8>, first: Seq<u8>) -> Option<Seq<u8>> {
    if ends_with(path, seq![0x2fu8] + first) {
        Some(path.take(path.len() - first.len() - 1))
    } else {
        None
    }
}

/// Whether a candidate entry places a fresh directory holding exactly
/// `files`: it has the first file's identity and ends with its relative
/// path, and its directory is absent from the base and holds exactly those
/// files on the candidate.
pub open spec fn places(base: Seq<TreeEntry>, candidate: Seq<TreeEntry>, files: Seq<FileView>, e: TreeEntry) -> bool {
    let first = files[0];
    &&& e.mode == first.1
    &&& e.oid@ == first.2
    &&& stem_of(e.path@, first.0) is Some
    &&& !holds(base, stem_of(e.path@, first.0).unwrap())
    &&& beneath(base, stem_of(e.path@, first.0).unwrap()).len() == 0
    &&& beneath(candidate, stem_of(e.path@, first.0).unwrap()) == files
}

/// The directories the candidate entries place, in listing order.
pub open spec fn stems(base: Seq<TreeEntry>, candidate: Seq<TreeEntry>, files: Seq<FileView>, v: Seq<TreeEntry>) -> Seq<Seq<u8>>
    decreases v.len(),
{
    if v.len() == 0 {
        seq![]
    } else {
        stems(base, candidate, files, v.drop_last()) + if places(base, candidate, files, v.last()) {
            seq![stem_of(v.last().path@, files[0].0).unwrap()]
        } else {
            seq![]
        }
    }
}

/// The identity of the tree at `p`, if the base has one there.
pub open spec fn tree_at(base: Seq<TreeEntry>, p: Seq<u8>) -> Option<Seq<u8>> {
    if exists|k: int| 0 <= k < base.len() && (#[trigger] base[k]).path@ == p && base[k].mode == GitMode::Tree {
        let k = choose|k: int| 0 <= k < base.len() && (#[trigger] base[k]).path@ == p && base[k].mode == GitMode::Tree;
        Some(base[k].oid@)
    } else {
        None
    }
}

/// A removed directory's counterpart: the one fresh candidate directory
/// holding exactly its files, provided it holds a file and no other removed
/// directory held the same tree.
pub open spec fn counterpart(base: Seq<TreeEntry>, candidate: Seq<TreeEntry>, dir: Seq<u8>) -> Option<Seq<u8>> {
    match tree_at(base, dir) {
        None => None,
        Some(oid) => {
            let files = beneath(base, dir);
            if files.len() == 0 {
                None
            } else {
                let s = stems(base, candidate, files, candidate);
                if removed_count(base, candidate, oid) == 1 && s.len() == 1 {
                    Some(s[0])
                } else {
                    None
                }
            }
        },
    }
}

/// The counterparts of the listed directories that have one, in order.
pub open spec fn pairs_of(base: Seq<TreeEntry>, candidate: Seq<TreeEntry>, dirs: Seq<Seq<u8>>) -> Seq<(Seq<u8>, Seq<u8>)>
    decreases dirs.len(),
{
    if dirs.len() == 0 {
        seq![]
    } else {
        pairs_of(base, candidate, dirs.drop_last()) + match counterpart(base, candidate, dirs.last()) {
            Some(s) => seq![(dirs.last(), s)],
            None => seq![],
        }
    }
}

/// The missing paths that are base trees.
pub open spec fn missing_trees(base: Seq<TreeEntry>, missing: Seq<Seq<u8>>) -> Set<Seq<u8>> {
    missing.to_set().filter(|p: Seq<u8>| tree_at(base, p) is Some)
}

/// Whether the candidate has nothing at or beneath `p`.
fn is_gone(candidate: &Vec<TreeEntry>, p: &[u8]) -> (r: bool)
    ensures
        r == gone(candidate@, p@),
{
    find_entry(candidate, p).is_none() && beneath_of(candidate, p).len() == 0
}

/// How many base trees with identity `oid` the candidate no longer has.
fn count_removed(base: &Vec<TreeEntry>, candidate: &Vec<TreeEntry>, oid: &[u8]) -> (n: usize)
    ensures
        n == removed_count(base@, candidate@, oid@),
{
    let mut n: usize = 0;
    for k in 0..base.len()
        invariant
            n == removed_count(base@.take(k as int), candidate@, oid@),
            n <= k,
    {
        let e = &base[k];
        assert(base@.take(k + 1).drop_last() =~= base@.take(k as int));
        assert(base@.take(k + 1).last() == base@[k as int]);
        if e.mode == GitMode::Tree && same_bytes(&e.oid, oid) && is_gone(candidate, &e.path) {
            n = n + 1;
        }
    }
    assert(base@.take(base@.len() as int) =~= base@);
    n
}

/// Whether two file lists are the same.
fn same_files(a: &Vec<(Vec<u8>, GitMode, Vec<u8>)>, b: &Vec<(Vec<u8>, GitMode, Vec<u8>)>) -> (r: bool)
    ensures
        r == (file_views(a@) == file_views(b@)),
{
    if a.len() != b.len() {
        assert(file_views(a@).len() != file_views(b@).len());
        return false;
    }
    for k in 0..a.len()
        invariant
            a@.len() == b@.len(),
            forall|m: int| 0 <= m < k ==> #[trigger] file_views(a@)[m] == file_views(b@)[m],
    {
        if !same_bytes(&a[k].0, &b[k].0) || a[k].1 != b[k].1 || !same_bytes(&a[k].2, &b[k].2) {
            assert(file_views(a@)[k as int] != file_views(b@)[k as int]);
            return false;
        }
        assert(file_views(a@)[k as int] == file_views(b@)[k as int]);
    }
    assert(file_views(a@) =~= file_views(b@));
    true
}

/// The directory a candidate entry places, if it places one.
fn placed(base: &Vec<TreeEntry>, candidate: &Vec<TreeEntry>, files: &Vec<(Vec<u8>, GitMode, Vec<u8>)>, e: &TreeEntry) -> (r: Option<Vec<u8>>)
    requires
        files@.len() > 0,
    ensures
        r is Some <==> places(base@, candidate@, file_views(files@), *e),
        r matches Some(s) ==> s@ == stem_of(e.path@, file_views(files@)[0].0).unwrap(),
{
    let first = &files[0];
    let ghost fv = file_views(files@);
    assert(fv[0] == (first.0@, first.1, first.2@));
    if e.mode != first.1 || !same_bytes(&e.oid, &first.2) {
        return None;
    }
    let mut tail: Vec<u8> = Vec::new();
    tail.push(0x2fu8);
    for i in 0..first.0.len()
        invariant
            tail@ == seq![0x2fu8] + first.0@.take(i as int),
    {
        tail.push(first.0[i]);
        assert(seq![0x2fu8] + first.0@.take(i + 1) =~= (seq![0x2fu8] + first.0@.take(i as int)).push(first.0@[i as int]));
    }
    assert(first.0@.take(first.0@.len() as int) =~= first.0@);
    if !has_suffix(&e.path, &tail) {
        return None;
    }
    let stem = copy_slice(&e.path, 0, e.path.len() - tail.len());
    assert(stem@ =~= e.path@.take(e.path@.len() - first.0@.len() - 1));
    if find_entry(base, &stem).is_some() || beneath_of(base, &stem).len() != 0 {
        return None;
    }
    let held = beneath_of(candidate, &stem);
    if !same_files(&held, files) {
        return None;
    }
    Some(stem)
}

/// The directories the candidate entries place, in listing order.
fn placed_stems(base: &Vec<TreeEntry>, candidate: &Vec<TreeEntry>, files: &Vec<(Vec<u8>, GitMode, Vec<u8>)>) -> (r: Vec<Vec<u8>>)
    requires
        files@.len() > 0,
    ensures
        views(r@) == stems(base@, candidate@, file_views(files@), candidate@),
{
    let mut r: Vec<Vec<u8>> = Vec::new();
    for k in 0..candidate.len()
        invariant
            files@.len() > 0,
            views(r@) == stems(base@, candidate@, file_views(files@), candidate@.take(k as int)),
    {
        assert(candidate@.take(k + 1).drop_last() =~= candidate@.take(k as int));
        assert(candidate@.take(k + 1).last() == candidate@[k as int]);
        let ghost pre = views(r@);
        match placed(base, candidate, files, &candidate[k]) {
            Some(stem) => {
                r.push(stem);
                assert(views(r@) =~= pre.push(stem@));
            },
            None => {},
        }
    }
    assert(candidate@.take(candidate@.len() as int) =~= candidate@);
    r
}

/// The identity of the tree at `p`, if the base has one there.
fn tree_of(base: &Vec<TreeEntry>, p: &[u8]) -> (r: Option<Vec<u8>>)
    requires
        strictly_sorted(entry_paths(base@)),
    ensures
        match r {
            Some(o) => tree_at(base@, p@) == Some(o@),
            None => tree_at(base@, p@) is None,
        },
{
    match find_entry(base, p) {
        Some(k) => {
            if base[k].mode == GitMode::Tree {
                proof {
                    let c = choose|c: int| 0 <= c < base@.len() && (#[trigger] base@[c]).path@ == p@ && base@[c].mode == GitMode::Tree;
                    if c != k {
                        assert(entry_paths(base@)[c] == base@[c].path@);
                        assert(entry_paths(base@)[k as int] == base@[k as int].path@);
                        if c < k {
                            crate::order::lemma_sorts_before_irreflexive(p@);
                        } else {
                            crate::order::lemma_sorts_before_irreflexive(p@);
                        }
                    }
                }
                Some(copy_bytes(&base[k].oid))
            } else {
                proof {
                    if exists|c: int| 0 <= c < base@.len() && (#[trigger] base@[c]).path@ == p@ && base@[c].mode == GitMode::Tree {
                        let c = choose|c: int| 0 <= c < base@.len() && (#[trigger] base@[c]).path@ == p@ && base@[c].mode == GitMode::Tree;
                        assert(entry_paths(base@)[c] == base@[c].path@);
                        assert(entry_paths(base@)[k as int] == base@[k as int].path@);
                        crate::order::lemma_sorts_before_irreflexive(p@);
                    }
                }
                None
            }
        },
        None => None,
    }
}

/// A removed directory's unique counterpart when the candidate names files
/// only, as an index does: the one added directory holding exactly its
/// files, provided no other removed directory held the same tree. Both
/// listings are in path order; `missing` names the paths the candidate
/// lacks, and the pairs come in directory order.
pub fn directory_pairs(base: &Vec<TreeEntry>, candidate: &Vec<TreeEntry>, missing: &Vec<Vec<u8>>) -> (r: Vec<(Vec<u8>, Vec<u8>)>)
    requires
        strictly_sorted(entry_paths(base@)),
        strictly_sorted(entry_paths(candidate@)),
    ensures
        r@.map_values(|x: (Vec<u8>, Vec<u8>)| (x.0@, x.1@)) == pairs_of(base@, candidate@, listing(missing_trees(base@, views(missing@)))),
{
    // the missing paths that are base trees, in path order, once each
    let mut dirs: Vec<Vec<u8>> = Vec::new();
    for k in 0..missing.len()
        invariant
            strictly_sorted(entry_paths(base@)),
            strictly_sorted(views(dirs@)),
            views(dirs@).to_set() == missing_trees(base@, views(missing@.take(k as int))),
    {
        assert(views(missing@.take(k + 1)) =~= views(missing@.take(k as int)).push(missing@[k as int]@));
        proof {
            crate::order::lemma_push_to_set(views(missing@.take(k as int)), missing@[k as int]@);
        }
        let ghost before = missing_trees(base@, views(missing@.take(k as int)));
        if tree_of(base, &missing[k]).is_some() {
            insert_sorted(&mut dirs, &missing[k]);
            assert(missing_trees(base@, views(missing@.take(k + 1))) =~= before.insert(missing@[k as int]@));
        } else {
            assert(missing_trees(base@, views(missing@.take(k + 1))) =~= before);
        }
    }
    assert(missing@.take(missing@.len() as int) =~= missing@);
    proof {
        lemma_is_listing(views(dirs@), missing_trees(base@, views(missing@)));
    }
    let ghost order = views(dirs@);
    let mut pairs: Vec<(Vec<u8>, Vec<u8>)> = Vec::new();
    for t in 0..dirs.len()
        invariant
            strictly_sorted(entry_paths(base@)),
            order == views(dirs@),
            pairs@.map_values(|x: (Vec<u8>, Vec<u8>)| (x.0@, x.1@)) == pairs_of(base@, candidate@, order.take(t as int)),
    {
        let dir = &dirs[t];
        assert(order.take(t + 1).drop_last() =~= order.take(t as int));
        assert(order.take(t + 1).last() == dir@);
        let ghost pre = pairs@.map_values(|x: (Vec<u8>, Vec<u8>)| (x.0@, x.1@));
        match tree_of(base, dir) {
            Some(oid) => {
                let files = beneath_of(base, dir);
                if files.len() > 0 {
                    let removed = count_removed(base, candidate, &oid);
                    let found = placed_stems(base, candidate, &files);
                    if removed == 1 && found.len() == 1 {
                        let from = copy_bytes(dir);
                        let to = copy_bytes(&found[0]);
                        assert(views(found@)[0] == found@[0]@);
                        pairs.push((from, to));
                        assert(pairs@.map_values(|x: (Vec<u8>, Vec<u8>)| (x.0@, x.1@)) =~= pre.push((dir@, found@[0]@)));
                    } else {
                        assert(pairs@.map_values(|x: (Vec<u8>, Vec<u8>)| (x.0@, x.1@)) =~= pre);
                    }
                } else {
                    assert(file_views(files@).len() == 0);
                }
            },
            None => {},
        }
    }
    assert(order.take(order.len() as int) =~= order);
    pairs
}

} // verus!
