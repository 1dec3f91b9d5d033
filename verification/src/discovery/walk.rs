//! The decisions of a snapshot tree walk, apart from the reads they ask for:
//! which entry comes next, when the entry budget is crossed, which paths are
//! too long, and when a subtree would be entered on its own ancestor stack.
//! The caller reads each tree and each path check the walk asks for, and
//! hands the answer back.

use vstd::prelude::*;

use crate::bytes::same_bytes;
use crate::discovery::GitMode;
use crate::tree::copy_bytes;

verus! {

/// One entry of a tree object: its name, its mode and its object.
pub struct TreeItem {
    pub name: Vec<u8>,
    pub mode: GitMode,
    pub oid: Vec<u8>,
}

/// A tree entry as values.
pub struct ItemView {
    pub name: Seq<u8>,
    pub mode: GitMode,
    pub oid: Seq<u8>,
}

impl View for TreeItem {
    type V = ItemView;

    open spec fn view(&self) -> ItemView {
        ItemView { name: self.name@, mode: self.mode, oid: self.oid@ }
    }
}

pub open spec fn item_views(v: Seq<TreeItem>) -> Seq<ItemView> {
    v.map_values(|i: TreeItem| i@)
}

/// One tree being walked: its object, the path it sits at, its entries, and
/// the next entry to take.
pub struct Frame {
    pub oid: Vec<u8>,
    pub prefix: Vec<u8>,
    pub entries: Vec<TreeItem>,
    pub next: usize,
}

/// A frame as values.
pub struct FrameView {
    pub oid: Seq<u8>,
    pub prefix: Seq<u8>,
    pub entries: Seq<ItemView>,
    pub next: nat,
}

impl View for Frame {
    type V = FrameView;

    open spec fn view(&self) -> FrameView {
        FrameView { oid: self.oid@, prefix: self.prefix@, entries: item_views(self.entries@), next: self.next as nat }
    }
}

pub open spec fn frame_views(v: Seq<Frame>) -> Seq<FrameView> {
    v.map_values(|f: Frame| f@)
}

/// What the walk asks of its caller next.
#[derive(Debug, PartialEq, Eq)]
pub enum WalkAction {
    /// Check whether this raw path can be represented; answer with `admitted`.
    CheckPath(Vec<u8>),
    /// Read this tree object; answer with `tree_read`, its path given.
    ReadTree(Vec<u8>, Vec<u8>),
    /// Record the non-tree entry at this path; answer with `advance`.
    Entry(Vec<u8>, GitMode, Vec<u8>),
    /// The snapshot holds more entries than its budget allows.
    EntryLimit,
    /// A tree holds itself on its own ancestor stack.
    Cycle,
    /// Every entry has been taken.
    Done,
}

/// An action as values.
pub enum ActionView {
    CheckPath(Seq<u8>),
    ReadTree(Seq<u8>, Seq<u8>),
    Entry(Seq<u8>, GitMode, Seq<u8>),
    EntryLimit,
    Cycle,
    Done,
}

impl View for WalkAction {
    type V = ActionView;

    open spec fn view(&self) -> ActionView {
        match self {
            WalkAction::CheckPath(p) => ActionView::CheckPath(p@),
            WalkAction::ReadTree(o, p) => ActionView::ReadTree(o@, p@),
            WalkAction::Entry(p, m, o) => ActionView::Entry(p@, *m, o@),
            WalkAction::EntryLimit => ActionView::EntryLimit,
            WalkAction::Cycle => ActionView::Cycle,
            WalkAction::Done => ActionView::Done,
        }
    }
}

/// Where a walk stands: the trees being walked, innermost last; the entries
/// charged so far and the budget; the path ceiling; the entry whose path is
/// being checked; the paths admitted, with their modes and objects; and the
/// raw lengths of the paths over the ceiling and the raw paths that cannot be
/// represented.
pub struct WalkState {
    pub frames: Vec<Frame>,
    pub tree_entries: u64,
    pub entries_limit: u64,
    pub path_limit: u64,
    pub pending: Option<(Vec<u8>, TreeItem)>,
    pub admitted: Vec<(Vec<u8>, GitMode, Vec<u8>)>,
    pub too_long: Vec<u64>,
    pub unrepresentable: Vec<Vec<u8>>,
}

/// A walk's state as values.
pub struct WalkView {
    pub frames: Seq<FrameView>,
    pub tree_entries: u64,
    pub entries_limit: u64,
    pub path_limit: u64,
    pub pending: Option<(Seq<u8>, ItemView)>,
    pub admitted: Seq<(Seq<u8>, GitMode, Seq<u8>)>,
    pub too_long: Seq<u64>,
    pub unrepresentable: Seq<Seq<u8>>,
}

pub open spec fn admitted_views(v: Seq<(Vec<u8>, GitMode, Vec<u8>)>) -> Seq<(Seq<u8>, GitMode, Seq<u8>)> {
    v.map_values(|a: (Vec<u8>, GitMode, Vec<u8>)| (a.0@, a.1, a.2@))
}

pub open spec fn byte_views(v: Seq<Vec<u8>>) -> Seq<Seq<u8>> {
    v.map_values(|a: Vec<u8>| a@)
}

impl View for WalkState {
    type V = WalkView;

    open spec fn view(&self) -> WalkView {
        WalkView {
            frames: frame_views(self.frames@),
            tree_entries: self.tree_entries,
            entries_limit: self.entries_limit,
            path_limit: self.path_limit,
            pending: match self.pending {
                Some((p, i)) => Some((p@, i@)),
                None => None,
            },
            admitted: admitted_views(self.admitted@),
            too_long: self.too_long@,
            unrepresentable: byte_views(self.unrepresentable@),
        }
    }
}

/// The raw path of `name` under `prefix`.
pub open spec fn joined_path(prefix: Seq<u8>, name: Seq<u8>) -> Seq<u8> {
    if prefix.len() == 0 {
        name
    } else {
        prefix.push(0x2fu8) + name
    }
}

/// The entries left to take in every frame.
pub open spec fn remaining(frames: Seq<FrameView>) -> nat
    decreases frames.len(),
{
    if frames.len() == 0 {
        0
    } else {
        remaining(frames.drop_last()) + if frames.last().next < frames.last().entries.len() {
            (frames.last().entries.len() - frames.last().next) as nat
        } else {
            0nat
        }
    }
}

/// Whether a frame of the stack walks the tree `oid`.
pub open spec fn on_stack(frames: Seq<FrameView>, oid: Seq<u8>) -> bool {
    exists|k: int| 0 <= k < frames.len() && #[trigger] frames[k].oid == oid
}

/// The walk moved on to the next entry: finished trees are left, the entry is
/// charged against the budget, and a path over the ceiling is recorded and
/// passed over; otherwise the entry's path is handed out to be checked.
pub open spec fn advance_of(w: WalkView) -> (WalkView, ActionView)
    decreases remaining(w.frames), w.frames.len(),
{
    if w.frames.len() == 0 {
        (w, ActionView::Done)
    } else {
        let f = w.frames.last();
        if f.next >= f.entries.len() {
            advance_of(WalkView { frames: w.frames.drop_last(), ..w })
        } else {
            let item = f.entries[f.next as int];
            let moved = FrameView { next: f.next + 1, ..f };
            let frames = w.frames.drop_last().push(moved);
            let charged: u64 = if w.tree_entries == u64::MAX { u64::MAX } else { (w.tree_entries + 1) as u64 };
            let w1 = WalkView { frames, tree_entries: charged, ..w };
            if charged > w.entries_limit {
                (w1, ActionView::EntryLimit)
            } else {
                let raw = joined_path(f.prefix, item.name);
                let raw_bytes: u64 = if raw.len() > u64::MAX { u64::MAX } else { raw.len() as u64 };
                if raw_bytes > w.path_limit {
                    proof {
                        assert(frames.drop_last() =~= w.frames.drop_last());
                    }
                    advance_of(WalkView { too_long: w.too_long.push(raw_bytes), ..w1 })
                } else {
                    (WalkView { pending: Some((raw, item)), ..w1 }, ActionView::CheckPath(raw))
                }
            }
        }
    }
}

/// The walk after the caller says whether the pending path can be
/// represented: an unrepresentable path is recorded and passed over; an
/// admitted one is recorded with its entry, and a tree is entered unless it
/// is on its own ancestor stack, any other entry is handed out.
pub open spec fn admitted_of(w: WalkView, ok: bool) -> (WalkView, ActionView) {
    match w.pending {
        None => advance_of(w),
        Some((raw, item)) => {
            let w0 = WalkView { pending: None, ..w };
            if !ok {
                advance_of(WalkView { unrepresentable: w.unrepresentable.push(raw), ..w0 })
            } else {
                let w1 = WalkView { admitted: w.admitted.push((raw, item.mode, item.oid)), ..w0 };
                if item.mode == GitMode::Tree {
                    if on_stack(w.frames, item.oid) {
                        (w1, ActionView::Cycle)
                    } else {
                        (w1, ActionView::ReadTree(item.oid, raw))
                    }
                } else {
                    (w1, ActionView::Entry(raw, item.mode, item.oid))
                }
            }
        },
    }
}

/// The walk after the caller read the tree `oid` at `prefix`: the tree is
/// entered, and the walk moves on.
pub open spec fn tree_read_of(w: WalkView, oid: Seq<u8>, prefix: Seq<u8>, entries: Seq<ItemView>) -> (WalkView, ActionView) {
    advance_of(WalkView { frames: w.frames.push(FrameView { oid, prefix, entries, next: 0 }), ..w })
}

/// A walk of nothing yet, under an entry budget and a path ceiling.
pub fn new_walk(entries_limit: u64, path_limit: u64) -> (w: WalkState)
    ensures
        w@.frames.len() == 0,
        w@.tree_entries == 0,
        w@.entries_limit == entries_limit,
        w@.path_limit == path_limit,
        w@.pending is None,
        w@.admitted.len() == 0,
        w@.too_long.len() == 0,
        w@.unrepresentable.len() == 0,
{
    WalkState {
        frames: Vec::new(),
        tree_entries: 0,
        entries_limit,
        path_limit,
        pending: None,
        admitted: Vec::new(),
        too_long: Vec::new(),
        unrepresentable: Vec::new(),
    }
}

fn copy_item(i: &TreeItem) -> (r: TreeItem)
    ensures
        r@ == i@,
{
    TreeItem { name: copy_bytes(i.name.as_slice()), mode: i.mode, oid: copy_bytes(i.oid.as_slice()) }
}

fn join_path(prefix: &Vec<u8>, name: &Vec<u8>) -> (r: Vec<u8>)
    ensures
        r@ == joined_path(prefix@, name@),
{
    if prefix.len() == 0 {
        return copy_bytes(name.as_slice());
    }
    let mut r = copy_bytes(prefix.as_slice());
    r.push(0x2f);
    let mut k: usize = 0;
    let ghost start = r@;
    while k < name.len()
        invariant
            k <= name@.len(),
            start == prefix@.push(0x2fu8),
            r@ == start + name@.take(k as int),
        decreases name@.len() - k,
    {
        r.push(name[k]);
        assert(name@.take(k + 1) =~= name@.take(k as int).push(name@[k as int]));
        k = k + 1;
    }
    assert(name@.take(name@.len() as int) =~= name@);
    r
}

/// Moves the walk on to the next entry.
pub fn advance(w: &mut WalkState) -> (a: WalkAction)
    ensures
        (final(w)@, a@) == advance_of(old(w)@),
    decreases remaining(old(w)@.frames), old(w)@.frames.len(),
{
    let n = w.frames.len();
    if n == 0 {
        return WalkAction::Done;
    }
    if w.frames[n - 1].next >= w.frames[n - 1].entries.len() {
        let ghost before = w@;
        w.frames.pop();
        proof {
            assert(frame_views(w.frames@) =~= before.frames.drop_last());
            assert(w@ == WalkView { frames: before.frames.drop_last(), ..before });
            assert(before.frames.drop_last() == before.frames.drop_last());
        }
        return advance(w);
    }
    let ghost before = w@;
    let at = w.frames[n - 1].next;
    let item = copy_item(&w.frames[n - 1].entries[at]);
    assert(item@ == before.frames.last().entries[at as int]);
    let prefix = copy_bytes(w.frames[n - 1].prefix.as_slice());
    let mut frame = w.frames.pop().unwrap();
    frame.next = at + 1;
    w.frames.push(frame);
    w.tree_entries = w.tree_entries.saturating_add(1);
    proof {
        assert(frame_views(w.frames@) =~= before.frames.drop_last().push(FrameView { next: before.frames.last().next + 1, ..before.frames.last() }));
    }
    if w.tree_entries > w.entries_limit {
        return WalkAction::EntryLimit;
    }
    let raw = join_path(&prefix, &item.name);
    let raw_bytes = raw.len() as u64;
    if raw_bytes > w.path_limit {
        w.too_long.push(raw_bytes);
        proof {
            assert(remaining(w@.frames) < remaining(before.frames)) by {
                let d = before.frames.drop_last();
                assert(w@.frames.drop_last() =~= d);
            }
        }
        return advance(w);
    }
    let check = copy_bytes(raw.as_slice());
    w.pending = Some((raw, item));
    WalkAction::CheckPath(check)
}

/// Whether the tree `oid` is walked by some frame of the stack.
fn stack_holds(frames: &Vec<Frame>, oid: &Vec<u8>) -> (b: bool)
    ensures
        b == on_stack(frame_views(frames@), oid@),
{
    let mut k: usize = 0;
    while k < frames.len()
        invariant
            k <= frames@.len(),
            forall|j: int| 0 <= j < k ==> frame_views(frames@)[j].oid != oid@,
        decreases frames@.len() - k,
    {
        if same_bytes(frames[k].oid.as_slice(), oid.as_slice()) {
            assert(frame_views(frames@)[k as int].oid == oid@);
            return true;
        }
        k = k + 1;
    }
    false
}

/// Takes the caller's answer to a path check.
pub fn admitted(w: &mut WalkState, ok: bool) -> (a: WalkAction)
    ensures
        (final(w)@, a@) == admitted_of(old(w)@, ok),
{
    let ghost before = w@;
    let pending = w.pending.take();
    match pending {
        None => advance(w),
        Some((raw, item)) => {
            assert(w@ == WalkView { pending: None, ..before });
            if !ok {
                w.unrepresentable.push(raw);
                assert(byte_views(w.unrepresentable@) =~= before.unrepresentable.push(raw@));
                return advance(w);
            }
            let path = copy_bytes(raw.as_slice());
            let oid = copy_bytes(item.oid.as_slice());
            w.admitted.push((raw, item.mode, copy_bytes(item.oid.as_slice())));
            assert(admitted_views(w.admitted@) =~= before.admitted.push((path@, item.mode, item.oid@)));
            if item.mode == GitMode::Tree {
                if stack_holds(&w.frames, &item.oid) {
                    return WalkAction::Cycle;
                }
                return WalkAction::ReadTree(oid, path);
            }
            WalkAction::Entry(path, item.mode, oid)
        },
    }
}

/// Takes a tree the caller read, enters it, and moves on.
pub fn tree_read(w: &mut WalkState, oid: Vec<u8>, prefix: Vec<u8>, entries: Vec<TreeItem>) -> (a: WalkAction)
    ensures
        (final(w)@, a@) == tree_read_of(old(w)@, oid@, prefix@, item_views(entries@)),
{
    let ghost before = w@;
    let ghost f = FrameView { oid: oid@, prefix: prefix@, entries: item_views(entries@), next: 0 };
    w.frames.push(Frame { oid, prefix, entries, next: 0 });
    assert(frame_views(w.frames@) =~= before.frames.push(f));
    advance(w)
}

/// Moving on never asks for a tree: trees are asked for only once their path
/// is admitted.
pub proof fn lemma_advance_reads_no_tree(w: WalkView)
    ensures
        !(advance_of(w).1 is ReadTree),
    decreases remaining(w.frames), w.frames.len(),
{
    if w.frames.len() > 0 {
        let f = w.frames.last();
        if f.next >= f.entries.len() {
            lemma_advance_reads_no_tree(WalkView { frames: w.frames.drop_last(), ..w });
        } else {
            let item = f.entries[f.next as int];
            let moved = FrameView { next: f.next + 1, ..f };
            let frames = w.frames.drop_last().push(moved);
            let charged: u64 = if w.tree_entries == u64::MAX { u64::MAX } else { (w.tree_entries + 1) as u64 };
            let w1 = WalkView { frames, tree_entries: charged, ..w };
            let raw = joined_path(f.prefix, item.name);
            let raw_bytes: u64 = if raw.len() > u64::MAX { u64::MAX } else { raw.len() as u64 };
            if charged <= w.entries_limit && raw_bytes > w.path_limit {
                assert(frames.drop_last() =~= w.frames.drop_last());
                lemma_advance_reads_no_tree(WalkView { too_long: w.too_long.push(raw_bytes), ..w1 });
            }
        }
    }
}

/// A tree is entered only when it is not already on the stack of trees
/// being walked: no tree is entered inside itself, so the walk never loops.
pub proof fn lemma_no_tree_inside_itself(w: WalkView, ok: bool)
    ensures
        admitted_of(w, ok).1 matches ActionView::ReadTree(oid, _) ==> !on_stack(w.frames, oid),
{
    match w.pending {
        None => lemma_advance_reads_no_tree(w),
        Some((raw, item)) => {
            if !ok {
                lemma_advance_reads_no_tree(WalkView { unrepresentable: w.unrepresentable.push(raw), pending: None, ..w });
            }
        },
    }
}

} // verus!
