use amiss::discovery::GitMode;
use amiss::projection::{selected_rows, SelectionDrift, TreePathSelection};
use amiss::tree::{locate, Located, TreeEntry};

fn entry(path: &[u8], mode: GitMode) -> TreeEntry {
    TreeEntry { path: path.to_vec(), mode, oid: b"o".to_vec() }
}

fn listing() -> Vec<TreeEntry> {
    vec![
        entry(b"docs", GitMode::Tree),
        entry(b"docs/a.md", GitMode::RegularFile),
        entry(b"docs/sub", GitMode::Tree),
        entry(b"docs/sub/b.md", GitMode::ExecutableFile),
        entry(b"docs/sub/deep/c.md", GitMode::RegularFile),
        entry(b"docs/sub/link", GitMode::Symlink),
        entry(b"readme", GitMode::RegularFile),
    ]
}

fn select(entries: &Vec<TreeEntry>, root: &str, depth: u64, suffix: Option<&str>) -> Result<Vec<String>, SelectionDrift> {
    let selection = TreePathSelection {
        root: root.as_bytes().to_vec(),
        maximum_depth: depth,
        suffix: suffix.map(|s| s.as_bytes().to_vec()),
    };
    selected_rows(entries, &selection)
}

#[test]
fn a_listing_locates_entries_and_implied_directories() {
    let entries = listing();
    assert_eq!(locate(&entries, b"docs"), Some(Located::Entry(GitMode::Tree)));
    assert_eq!(locate(&entries, b"readme"), Some(Located::Entry(GitMode::RegularFile)));
    assert_eq!(locate(&entries, b"docs/sub/deep"), Some(Located::ImpliedTree));
    assert_eq!(locate(&entries, b"docs/su"), None);
    assert_eq!(locate(&entries, b"missing"), None);
}

#[test]
fn rows_are_the_files_beneath_the_root_within_depth_and_suffix() {
    let entries = listing();
    assert_eq!(select(&entries, "docs", 2, None), Ok(vec!["a.md".to_owned(), "sub/b.md".to_owned(), "sub/link".to_owned()]));
    assert_eq!(
        select(&entries, "docs", 5, Some(".md")),
        Ok(vec!["a.md".to_owned(), "sub/b.md".to_owned(), "sub/deep/c.md".to_owned()])
    );
    assert_eq!(select(&entries, "docs/sub/deep", 1, None), Ok(vec!["c.md".to_owned()]));
    assert_eq!(select(&entries, "docs", 0, None), Ok(vec![]));
}

#[test]
fn a_root_that_is_not_a_tree_or_a_path_that_is_not_a_row_fails() {
    let entries = listing();
    assert_eq!(select(&entries, "readme", 3, None), Err(SelectionDrift::SourceTreeRootNotATree));
    assert_eq!(select(&entries, "nowhere", 3, None), Err(SelectionDrift::SourceTreeRootAbsent));
    let mut odd = listing();
    odd.insert(2, entry(b"docs/b\xffd.md", GitMode::RegularFile));
    assert_eq!(select(&odd, "docs", 3, None), Err(SelectionDrift::SourceTreePathNotUtf8));
    let mut tabbed = listing();
    tabbed.insert(2, entry(b"docs/b\td.md", GitMode::RegularFile));
    assert_eq!(select(&tabbed, "docs", 3, None), Err(SelectionDrift::SourceTreePathNotARow));
}
