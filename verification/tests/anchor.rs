use amiss::anchor::identity::{bump, OccupiedIdentities, fill, numbered_identity, bumped_identity};
use amiss::anchor::slug::{is_kept, is_separator, smart, split_first};
use amiss::anchor::{
    anchor_set, anchor_set_checked, definition_terms, github, identities, identities_checked, rules, slug,
    AnchorRule, Duplicates, Empty,
    Heading, HeadingAttribute, HeadingSource, Keep, Separators, Terms,
};

fn rule(name: &str) -> AnchorRule {
    rules().into_iter().find(|rule| rule.name == name).expect("a known rule")
}

fn heading(text: &str) -> Heading {
    Heading { text: text.to_owned(), source: HeadingSource::Markdown, attribute: None, span: (0, 0) }
}

fn ids(rule_name: &str, texts: &[&str]) -> Vec<String> {
    let headings: Vec<Heading> = texts.iter().map(|text| heading(text)).collect();
    identities(&rule(rule_name), &headings)
}

#[test]
fn the_table_holds_every_renderer_in_order() {
    let names: Vec<&str> = rules().iter().map(|rule| rule.name).collect();
    assert_eq!(
        names,
        vec![
            "github",
            "gitea",
            "forgejo",
            "mdbook",
            "mdbook-smart",
            "goldmark",
            "python-markdown",
            "pymdownx",
            "mdit-vue",
            "kramdown",
            "asciidoctor",
            "docutils",
        ]
    );
    assert_eq!(rules()[0], github());
}

#[test]
fn the_definition_term_rule_is_github_reading_terms() {
    let terms = definition_terms();
    assert_eq!(terms.name, "definition-term");
    assert_eq!(terms.terms, Terms::Anchored);
    assert_eq!(AnchorRule { name: "github", terms: Terms::Ignored, ..terms }, github());
}

#[test]
fn github_lowercases_drops_punctuation_and_dashes_spaces() {
    assert_eq!(slug(&github(), "Hello World!"), "hello-world");
    assert_eq!(slug(&github(), "a_b"), "a_b");
    assert_eq!(slug(&github(), "a+b"), "ab");
    assert_eq!(slug(&github(), "  Two  Spaces "), "--two--spaces-");
    assert_eq!(slug(&github(), "Café ☕"), "café-");
    assert_eq!(slug(&github(), "ÜBER"), "über");
}

#[test]
fn each_rule_builds_its_own_identity() {
    assert_eq!(slug(&rule("asciidoctor"), "Hello World"), "_hello_world");
    assert_eq!(slug(&rule("asciidoctor"), "Trailing !"), "_trailing");
    assert_eq!(slug(&rule("python-markdown"), "  Hello   World "), "hello-world");
    assert_eq!(slug(&rule("kramdown"), "1. Intro"), "intro");
    assert_eq!(slug(&rule("docutils"), "Hello, World!"), "hello-world");
    assert_eq!(slug(&rule("goldmark"), "snake_case Name"), "snake-case-name");
    assert_eq!(slug(&rule("mdit-vue"), "1 Intro"), "_1-intro");
    assert_eq!(slug(&rule("mdbook"), "A -- B"), "a----b");
    assert_eq!(slug(&rule("mdbook-smart"), "A -- B"), "a--b");
    assert_eq!(slug(&rule("gitea"), "ABC Def"), "abc-def");
}

#[test]
fn the_outside_tables_change_what_they_read() {
    // NFKD takes the ligature apart before ASCII folding keeps its letters.
    assert_eq!(slug(&rule("python-markdown"), "\u{FB01}le"), "file");
    // NFC composes the accent onto its letter, which the letter filter keeps.
    assert_eq!(slug(&rule("pymdownx"), "e\u{301}"), "\u{e9}");
    // A superscript digit is numeric, so mdBook keeps it.
    assert_eq!(slug(&rule("mdbook"), "x\u{b2}"), "x\u{b2}");
    // The per-character lowering keeps the first character of a longer mapping.
    assert_eq!(slug(&rule("gitea"), "\u{130}X"), "ix");
}

#[test]
fn the_smart_rewrites_replace_dashes_and_ellipses() {
    assert_eq!(smart("a---b--c...d-e.f"), "a\u{2014}b\u{2013}c\u{2026}d-e.f");
    assert_eq!(smart("----"), "\u{2014}-");
    assert_eq!(smart(""), "");
    let text: Vec<char> = "xy".chars().collect();
    let (first, rest) = split_first(&text).expect("a first character");
    assert_eq!(first, 'x');
    assert_eq!(rest, &['y']);
    assert!(split_first(&[]).is_none());
}

#[test]
fn separators_and_kept_characters_follow_their_classes() {
    assert!(is_separator(Separators::Space, ' '));
    assert!(!is_separator(Separators::Space, '\t'));
    assert!(is_separator(Separators::Whitespace, '\u{3000}'));
    assert!(is_separator(Separators::WhitespaceUnderscore, '_'));
    assert!(is_separator(Separators::NonAlphanumeric, '\u{e9}'));
    assert!(is_separator(Separators::MditVuePunctuation, '\u{201C}'));
    assert!(!is_separator(Separators::MditVuePunctuation, '-'));
    assert!(is_kept(Keep::LetterMarkNumberConnector, '\u{301}'));
    assert!(is_kept(Keep::LetterMarkNumberConnector, '\u{203F}'));
    assert!(!is_kept(Keep::LetterNumberUnderscore, '\u{301}'));
    assert!(is_kept(Keep::AsciidoctorId, '.'));
    assert!(!is_kept(Keep::AnythingButC0, '\u{1f}'));
    assert!(is_kept(Keep::AnythingButC0, '\u{7f}'));
}

#[test]
fn a_repeat_is_numbered_the_way_its_renderer_numbers_it() {
    assert_eq!(ids("github", &["Intro", "Intro", "Intro"]), vec!["intro", "intro-1", "intro-2"]);
    assert_eq!(ids("asciidoctor", &["Intro", "Intro"]), vec!["_intro", "_intro_2"]);
    assert_eq!(
        ids("python-markdown", &["Intro", "Intro", "Intro"]),
        vec!["intro", "intro_1", "intro_2"]
    );
    assert_eq!(ids("gitea", &["Intro", "Intro"]), vec!["intro", "intro"]);
    assert_eq!(ids("github", &["A", "A-1", "A"]), vec!["a", "a-1", "a-2"]);
}

#[test]
fn an_empty_identity_is_dropped_kept_or_filled() {
    assert_eq!(ids("gitea", &["!!!"]), Vec::<String>::new());
    assert_eq!(ids("github", &["!!!"]), vec![""]);
    assert_eq!(ids("forgejo", &["!!!", "!!!"]), vec!["heading", "heading-1"]);
    assert_eq!(ids("kramdown", &["123"]), vec!["section"]);
}

#[test]
fn a_raw_html_heading_and_an_attribute_block_follow_the_rule() {
    let headings = vec![
        Heading { text: "Raw".to_owned(), source: HeadingSource::RawHtml, attribute: None, span: (0, 3) },
        Heading {
            text: "Own".to_owned(),
            source: HeadingSource::Markdown,
            attribute: Some(HeadingAttribute { id: "custom".to_owned(), suffix: " {#custom}".to_owned() }),
            span: (4, 20),
        },
    ];
    assert_eq!(identities(&github(), &headings), vec!["raw", "own-custom"]);
    assert_eq!(identities(&rule("gitea"), &headings), vec!["custom"]);
}

#[test]
fn bump_counts_on_a_trailing_number() {
    assert_eq!(bump("x"), "x_1");
    assert_eq!(bump("x_1"), "x_2");
    assert_eq!(bump("x_9"), "x_10");
    assert_eq!(bump("x_007"), "x_8");
    assert_eq!(bump("x1"), "x1_1");
    assert_eq!(bump(""), "_1");
    assert_eq!(bump("x_18446744073709551615"), "x_18446744073709551615");
    assert_eq!(bump("x_99999999999999999999"), "x_99999999999999999999_1");
}

#[test]
fn fill_takes_each_identity_it_publishes() {
    let mut occupied = OccupiedIdentities::new();
    let dash = github();
    assert_eq!(fill(&dash, "a".to_owned(), &mut occupied), Some("a".to_owned()));
    assert_eq!(fill(&dash, "a".to_owned(), &mut occupied), Some("a-1".to_owned()));
    assert_eq!(numbered_identity("a".to_owned(), '-', 1, &mut occupied), "a-2");
    assert_eq!(bumped_identity("b".to_owned(), &mut occupied), "b");
    let drop = AnchorRule { empty: Empty::Drop, duplicates: Duplicates::Collide, ..dash };
    assert_eq!(fill(&drop, String::new(), &mut occupied), None);
}

#[test]
fn identities_under_a_numbering_rule_never_repeat() {
    let texts = ["X", "X", "X-1", "X", "X-2", "X-3"];
    for name in ["github", "asciidoctor", "python-markdown", "forgejo", "docutils"] {
        let found = ids(name, &texts);
        let mut sorted = found.clone();
        sorted.sort();
        sorted.dedup();
        assert_eq!(sorted.len(), found.len(), "{name}: {found:?}");
    }
}

#[test]
fn the_anchor_set_is_the_union_of_every_rule_and_the_declared_anchors() {
    let headings = vec![heading("Intro")];
    let set = anchor_set(&headings, &vec!["html-id".to_owned()], &vec!["declared".to_owned(), "intro".to_owned()]);
    for expected in ["html-id", "declared", "intro", "_intro"] {
        assert!(set.contains(&expected.to_owned()), "{expected} in {set:?}");
    }
    assert_eq!(set, vec!["_intro", "declared", "html-id", "intro"]);
}

#[test]
fn a_search_that_never_finds_a_free_spelling_is_reported() {
    let stuck = vec![heading("x_18446744073709551615"), heading("x_18446744073709551615")];
    assert_eq!(identities_checked(&rule("python-markdown"), &stuck), None);
    assert_eq!(identities_checked(&rule("pymdownx"), &stuck), None);
    assert_eq!(
        identities_checked(&github(), &stuck),
        Some(vec!["x_18446744073709551615".to_owned(), "x_18446744073709551615-1".to_owned()])
    );
    assert_eq!(anchor_set_checked(&stuck, &vec![], &vec![]), None);
    let fine = vec![heading("Intro"), heading("Intro")];
    assert_eq!(
        identities_checked(&rule("python-markdown"), &fine),
        Some(vec!["intro".to_owned(), "intro_1".to_owned()])
    );
    assert_eq!(anchor_set_checked(&fine, &vec![], &vec![]), Some(anchor_set(&fine, &vec![], &vec![])));
}
