use amiss::declared::{kept_entry, qualifying, re_included, trim_trailing_blanks, well_formed, Declarations};

#[test]
fn anchored_literals_are_read_and_patterns_are_not() {
    let declarations = Declarations::parse(b"/build/\n*.log\n/docs/api.md\nnotes/\n# /comment\n/a/./b\n");
    assert!(declarations.declares(b"build"));
    assert!(declarations.declares(b"build/x/y.md"));
    assert!(declarations.declares(b"docs/api.md"));
    assert!(!declarations.declares(b"docs/other.md"));
    assert!(!declarations.declares(b"docs/api.md/child"));
    assert!(!declarations.declares(b"x.log"), "a pattern reaches too far");
    assert!(!declarations.declares(b"notes/x"), "a trailing slash alone does not anchor");
    assert!(!declarations.declares(b"comment"));
    assert!(!declarations.declares(b"a/./b"));
}

#[test]
fn the_bare_star_empties_the_directory_but_for_its_negations() {
    let declarations = Declarations::parse(b"*\n!keep\r\n!/other/ \n");
    assert!(declarations.declares(b"anything"));
    assert!(declarations.declares(b"deep/path"));
    assert!(!declarations.declares(b"keep"));
    assert!(!declarations.declares(b"keep/inside"));
    assert!(!declarations.declares(b"other/inside"));
    let unbounded = Declarations::parse(b"*\n!a/b\n");
    assert!(!unbounded.declares(b"anything"), "a deep negation drops the claim");
    let pattern = Declarations::parse(b"*\n!*.md\n");
    assert!(!pattern.declares(b"anything"), "a pattern negation drops the claim");
}

#[test]
fn the_line_readers_answer_on_their_own() {
    assert_eq!(trim_trailing_blanks(b"a b \t "), b"a b");
    assert_eq!(trim_trailing_blanks(b"   "), b"");
    assert_eq!(qualifying(b"/a"), Some(&b"a"[..]));
    assert_eq!(qualifying(b"a/b"), Some(&b"a/b"[..]));
    assert_eq!(qualifying(b"a/"), None);
    assert_eq!(qualifying(b"a"), None);
    assert_eq!(qualifying(b"#/a"), None);
    assert_eq!(qualifying(b"/a?"), None);
    assert_eq!(kept_entry(b"/keep/"), Some(&b"keep"[..]));
    assert_eq!(kept_entry(b"a/b"), None);
    assert_eq!(kept_entry(b".."), None);
    assert!(well_formed(b"a/b"));
    assert!(!well_formed(b""));
    assert!(!well_formed(b"a//b"));
    assert!(!well_formed(b"a/../b"));
    assert!(!well_formed(b"a/"));
    assert!(re_included(&vec![b"keep".to_vec()], b"keep/x"));
    assert!(!re_included(&vec![b"keep".to_vec()], b"kept/x"));
}
