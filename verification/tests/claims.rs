use amiss::claim::groups::{claim_fix, claim_groups, source_multiplicities, ClaimFindingKind, ClaimFix};
use amiss::claim::{claim_respelling, ClaimCarrier, ClaimMissingReason, ClaimOutcome, ClaimVerdict};

fn outcome(document: &str, name: &str, span: (usize, usize), source: &str, verdict: ClaimVerdict) -> ClaimOutcome {
    ClaimOutcome {
        carrier: ClaimCarrier::Definition,
        document: document.as_bytes().to_vec(),
        name: name.to_owned(),
        span,
        source_digest: source.as_bytes().to_vec(),
        path: b"src/lib.rs".to_vec(),
        line: span.0 as u64,
        expected_digest: b"e".to_vec(),
        verdict,
    }
}

fn broken(line: &str) -> ClaimVerdict {
    ClaimVerdict::Broken { observed_digest: format!("digest:{line}").into_bytes(), observed: line.as_bytes().to_vec() }
}

#[test]
fn multiplicities_count_each_distinct_digest_in_order() {
    let digests: Vec<Vec<u8>> = ["b", "a", "b", "c", "b"].iter().map(|d| d.as_bytes().to_vec()).collect();
    assert_eq!(
        source_multiplicities(&digests),
        vec![(b"a".to_vec(), 1), (b"b".to_vec(), 3), (b"c".to_vec(), 1)]
    );
    assert!(source_multiplicities(&vec![]).is_empty());
}

#[test]
fn defective_claims_group_by_document_name_and_kind() {
    let outcomes = vec![
        outcome("a.md", "x", (10, 2), "s1", broken("old")),
        outcome("a.md", "x", (3, 1), "s2", broken("new")),
        outcome("a.md", "x", (3, 1), "s1", broken("other")),
        outcome("a.md", "x", (5, 0), "s3", ClaimVerdict::TargetMissing(ClaimMissingReason::Absent)),
        outcome("a.md", "w", (1, 0), "s4", ClaimVerdict::Attested),
        outcome("A.md", "z", (7, 7), "s5", ClaimVerdict::TargetMissing(ClaimMissingReason::LineOutOfRange)),
    ];
    let groups = claim_groups(&outcomes);
    let keys: Vec<(Vec<u8>, String, ClaimFindingKind, u64)> =
        groups.iter().map(|g| (g.document.clone(), g.name.clone(), g.kind, g.member_count)).collect();
    assert_eq!(
        keys,
        vec![
            (b"A.md".to_vec(), "z".to_owned(), ClaimFindingKind::ClaimTargetMissing, 1),
            (b"a.md".to_vec(), "x".to_owned(), ClaimFindingKind::ClaimBroken, 3),
            (b"a.md".to_vec(), "x".to_owned(), ClaimFindingKind::ClaimTargetMissing, 1),
        ]
    );
    let broken_group = &groups[1];
    assert_eq!(broken_group.representative_span, (3, 1));
    assert_eq!(broken_group.observed, "line-differs");
    assert_eq!(broken_group.observed_line, Some(b"new".to_vec()));
    assert_eq!(broken_group.observed_digest, Some(b"digest:new".to_vec()));
    assert_eq!(broken_group.sources, vec![(b"s1".to_vec(), 2), (b"s2".to_vec(), 1)]);
    assert_eq!(groups[0].observed, "line-out-of-range");
    assert_eq!(groups[2].observed, "target-absent");
    assert_eq!(groups[2].observed_line, None);
    assert_eq!(groups[2].line, 5);
}

#[test]
fn attested_claims_group_nothing() {
    let outcomes = vec![outcome("a.md", "x", (1, 1), "s", ClaimVerdict::Attested)];
    assert!(claim_groups(&outcomes).is_empty());
}

#[test]
fn a_broken_claim_is_respelled_in_its_own_carrier() {
    assert_eq!(
        claim_respelling("install", b"docs/install.md", 12, b"Run make", ClaimCarrier::RstComment),
        Some(".. [amiss:install]: <amiss:value?path=docs/install.md&line=L12> \"Run make\"".to_owned())
    );
    assert_eq!(
        claim_respelling("v", b"a.txt", 1, b"x", ClaimCarrier::Definition),
        Some("[amiss:v]: <amiss:value?path=a.txt&line=L1> \"x\"".to_owned())
    );
    assert_eq!(
        claim_respelling("v", b"a.txt", 1, b"x", ClaimCarrier::AdocComment),
        Some("// [amiss:v]: <amiss:value?path=a.txt&line=L1> \"x\"".to_owned())
    );
}

#[test]
fn words_that_cannot_be_quoted_are_not_respelled() {
    assert_eq!(claim_respelling("v", b"a.txt", 1, b"say \"hi\"", ClaimCarrier::Definition), None);
    assert_eq!(claim_respelling("v", b"a.txt", 1, b"back\\slash", ClaimCarrier::Definition), None);
    assert_eq!(claim_respelling("v", b"a.txt", 1, b"tab\there", ClaimCarrier::Definition), None);
    assert_eq!(claim_respelling("v", b"a.txt", 1, "del\u{7f}".as_bytes(), ClaimCarrier::Definition), None);
    assert_eq!(claim_respelling("v", b"a.txt", 1, &[0xff], ClaimCarrier::Definition), None);
    assert_eq!(claim_respelling("v", &[0xff], 1, b"x", ClaimCarrier::Definition), None);
    assert!(claim_respelling("v", b"a.txt", 1, "caf\u{e9}".as_bytes(), ClaimCarrier::Definition).is_some());
}

#[test]
fn only_a_lone_broken_claim_gets_an_edit() {
    let outcomes = vec![
        outcome("a.md", "x", (3, 9), "s1", broken("fresh words")),
        outcome("b.md", "y", (1, 1), "s2", broken("one")),
        outcome("b.md", "y", (2, 1), "s3", broken("two")),
        outcome("c.md", "z", (4, 1), "s4", ClaimVerdict::TargetMissing(ClaimMissingReason::Absent)),
        outcome("d.md", "q", (5, 1), "s5", broken("say \"no\"")),
    ];
    let groups = claim_groups(&outcomes);
    assert_eq!(groups.len(), 4);
    assert_eq!(
        claim_fix(&groups[0]),
        Some(ClaimFix {
            path: "a.md".to_owned(),
            span: (3, 9),
            replacement: "[amiss:x]: <amiss:value?path=src/lib.rs&line=L3> \"fresh words\"".to_owned(),
        })
    );
    assert_eq!(claim_fix(&groups[1]), None);
    assert_eq!(claim_fix(&groups[2]), None);
    assert_eq!(claim_fix(&groups[3]), None);
}

#[test]
fn source_groups_preserve_sorted_digests_and_exact_multiplicities() {
    let first = vec![0x11u8; 32];
    let second = vec![0xaau8; 32];
    for first_count in 0..=3usize {
        for second_count in 0..=3usize {
            let mut input: Vec<Vec<u8>> = std::iter::repeat_n(first.clone(), first_count)
                .chain(std::iter::repeat_n(second.clone(), second_count))
                .collect();
            let expected: Vec<(Vec<u8>, u64)> = [(first.clone(), first_count), (second.clone(), second_count)]
                .into_iter()
                .filter(|(_, count)| *count != 0)
                .map(|(digest, count)| (digest, count as u64))
                .collect();
            for reverse in [false, true] {
                if reverse {
                    input.reverse();
                }
                for _ in 0..input.len().max(1) {
                    assert_eq!(source_multiplicities(&input), expected);
                    if !input.is_empty() {
                        input.rotate_left(1);
                    }
                }
            }
        }
    }
}
