use amiss::discovery::walk::{admitted, advance, new_walk, tree_read, TreeItem, WalkAction, WalkState};
use amiss::discovery::GitMode;

fn item(name: &str, mode: GitMode, oid: &str) -> TreeItem {
    TreeItem { name: name.as_bytes().to_vec(), mode, oid: oid.as_bytes().to_vec() }
}

fn tree(oid: &[u8]) -> Vec<TreeItem> {
    match oid {
        b"root" => vec![item("README.md", GitMode::RegularFile, "r"), item("docs", GitMode::Tree, "docs"), item("link", GitMode::Symlink, "l")],
        b"docs" => vec![item("a.md", GitMode::RegularFile, "a"), item("loop", GitMode::Tree, "root")],
        _ => vec![],
    }
}

fn run(mut w: WalkState, refuse: &[u8]) -> (Vec<Vec<u8>>, WalkAction, WalkState) {
    let mut seen = Vec::new();
    let mut action = tree_read(&mut w, b"root".to_vec(), vec![], tree(b"root"));
    loop {
        action = match action {
            WalkAction::CheckPath(raw) => {
                let ok = raw != refuse;
                admitted(&mut w, ok)
            },
            WalkAction::ReadTree(oid, path) => {
                let entries = tree(&oid);
                tree_read(&mut w, oid, path, entries)
            },
            WalkAction::Entry(path, _, _) => {
                seen.push(path);
                advance(&mut w)
            },
            last => return (seen, last, w),
        };
    }
}

#[test]
fn the_walk_hands_out_entries_depth_first_and_stops_at_a_cycle() {
    let (seen, last, w) = run(new_walk(100, 100), b"");
    assert_eq!(seen, vec![b"README.md".to_vec(), b"docs/a.md".to_vec()]);
    assert_eq!(last, WalkAction::Cycle);
    assert_eq!(w.admitted.len(), 4);
}

#[test]
fn the_walk_records_long_and_unrepresentable_paths_and_its_budget() {
    let (seen, last, w) = run(new_walk(100, 6), b"link");
    assert_eq!(seen, Vec::<Vec<u8>>::new());
    assert_eq!(last, WalkAction::Done);
    assert_eq!(w.too_long, vec![9, 9, 9]);
    assert_eq!(w.unrepresentable, vec![b"link".to_vec()]);
    let (_, last, _) = run(new_walk(2, 100), b"");
    assert_eq!(last, WalkAction::EntryLimit);
}
