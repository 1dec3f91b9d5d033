use amiss::evaluate::structural::{structural_facts, structural_findings, ComparisonFacts, StructuralMember};
use amiss::evaluate::{Attribution, ReferenceFindingKind};
use amiss::feedback::LocationSide;

fn member(id: &str, document: &str, span: (usize, usize), key: &str, shape: &str) -> StructuralMember {
    StructuralMember {
        id: id.as_bytes().to_vec(),
        document: document.as_bytes().to_vec(),
        span,
        kind: Some(ReferenceFindingKind::ExplicitTargetMissing),
        key: key.as_bytes().to_vec(),
        shape: shape.as_bytes().to_vec(),
    }
}

fn comparison(continued: bool, base: Option<StructuralMember>, candidate: Option<StructuralMember>) -> ComparisonFacts {
    ComparisonFacts { continued, base, candidate, alternatives_base: vec![], alternatives_candidate: vec![] }
}

#[test]
fn a_continued_failure_stays_pre_existing_and_each_key_reports_once() {
    let comparisons = vec![
        comparison(true, Some(member("b1", "a.md", (1, 2), "k1", "missing")), Some(member("c1", "a.md", (3, 4), "k2", "missing"))),
        comparison(false, Some(member("b2", "b.md", (0, 1), "k3", "missing")), None),
        comparison(false, None, Some(member("c3", "c.md", (5, 6), "k4", "mismatch"))),
        comparison(false, Some(member("b4", "d.md", (0, 1), "k5", "missing")), Some(member("c4", "d.md", (0, 1), "k5", "mismatch"))),
    ];
    let found = structural_findings(&comparisons);
    let keys: Vec<Vec<u8>> = found.iter().map(|f| f.key.clone()).collect();
    assert_eq!(keys, vec![b"k2".to_vec(), b"k3".to_vec(), b"k4".to_vec(), b"k5".to_vec()]);
    let attributions: Vec<Attribution> = found.iter().map(|f| f.attribution).collect();
    assert_eq!(
        attributions,
        vec![Attribution::PreExisting, Attribution::Resolved, Attribution::Introduced, Attribution::Unknown]
    );
    assert_eq!(found[0].side, LocationSide::Candidate);
    assert_eq!(found[0].observation_ids, vec![b"c1".to_vec()]);
    assert_eq!((found[0].base_members, found[0].candidate_members), (1, 1));
    assert_eq!(found[1].side, LocationSide::Base);
    assert_eq!(found[1].location_document, b"b.md".to_vec());
    assert_eq!(found[2].location_span, (5, 6));
}

#[test]
fn a_group_reports_its_least_member_and_sorted_ids() {
    let comparisons = vec![
        comparison(false, None, Some(member("z", "b.md", (9, 9), "k", "missing"))),
        comparison(false, None, Some(member("a", "a.md", (7, 8), "k", "missing"))),
        comparison(false, None, Some(member("m", "a.md", (2, 3), "k", "missing"))),
    ];
    let found = structural_findings(&comparisons);
    assert_eq!(found.len(), 1);
    assert_eq!(found[0].member_count, 3);
    assert_eq!(found[0].observation_ids, vec![b"a".to_vec(), b"m".to_vec(), b"z".to_vec()]);
    assert_eq!(found[0].location_document, b"a.md".to_vec());
    assert_eq!(found[0].location_span, (2, 3));
}

#[test]
fn structural_facts_count_each_key_once_in_byte_order() {
    let mut plain = member("p", "a.md", (0, 0), "k0", "");
    plain.kind = None;
    let observations = vec![member("1", "a.md", (0, 1), "kb", ""), member("2", "a.md", (1, 2), "ka", ""), member("3", "a.md", (2, 3), "kb", ""), plain];
    assert_eq!(structural_facts(&observations), vec![(b"ka".to_vec(), 1), (b"kb".to_vec(), 2)]);
}
