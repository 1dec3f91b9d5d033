use amiss::correlate::components::{correlate, Comparison, CorrelationError, Observation, Side};
use amiss::correlate::directories::directory_pairs;
use amiss::tree::TreeEntry;
use amiss::discovery::GitMode;
use amiss::correlate::{Impact, Outcome, Reason, Resolution, SourceChange, TargetChange};

fn obs(id: u8, document: &str, key: &str, projection: &str) -> Observation {
    Observation {
        id: vec![id],
        document: document.as_bytes().to_vec(),
        key: key.as_bytes().to_vec(),
        projection: projection.as_bytes().to_vec(),
        resolution: Resolution::Resolved(Some(vec![7])),
    }
}

fn side(observations: Vec<Observation>, documents: &[(&str, &str)]) -> Side {
    Side {
        observations,
        documents: documents
            .iter()
            .map(|(path, identity)| (path.as_bytes().to_vec(), identity.as_bytes().to_vec()))
            .collect(),
    }
}

/// A row as (outcome, reason, base ids, candidate ids), primaries first.
fn shape(base: &Side, candidate: &Side, row: &Comparison) -> (Outcome, Reason, Vec<u8>, Vec<u8>) {
    let mut b: Vec<u8> = row.base.iter().map(|&i| base.observations[i].id[0]).collect();
    b.extend(row.alternatives_base.iter().map(|&i| base.observations[i].id[0]));
    let mut c: Vec<u8> = row.candidate.iter().map(|&j| candidate.observations[j].id[0]).collect();
    c.extend(row.alternatives_candidate.iter().map(|&j| candidate.observations[j].id[0]));
    (row.labels.outcome, row.labels.reason, b, c)
}

fn run(base: &Side, candidate: &Side) -> Vec<(Outcome, Reason, Vec<u8>, Vec<u8>)> {
    correlate(base, candidate).unwrap().iter().map(|row| shape(base, candidate, row)).collect()
}

#[test]
fn equal_identities_pair_exactly_in_identity_order() {
    let base = side(vec![obs(3, "a.md", "k", "p"), obs(1, "a.md", "k", "q")], &[]);
    let candidate = side(vec![obs(1, "a.md", "k", "q"), obs(3, "a.md", "k", "p")], &[]);
    let rows = correlate(&base, &candidate).unwrap();
    assert_eq!(
        rows.iter().map(|row| shape(&base, &candidate, row)).collect::<Vec<_>>(),
        vec![
            (Outcome::Exact, Reason::SameExtractionKeyAndProjection, vec![1], vec![1]),
            (Outcome::Exact, Reason::SameExtractionKeyAndProjection, vec![3], vec![3]),
        ]
    );
    assert_eq!(rows[0].labels.source_change, SourceChange::Equal);
    assert_eq!(rows[0].labels.target_change, TargetChange::Equal);
    assert_eq!(rows[0].labels.impact, Impact::Unaffected);
}

#[test]
fn a_reworded_reference_pairs_as_a_candidate() {
    let base = side(vec![obs(1, "a.md", "k", "p")], &[]);
    let candidate = side(vec![obs(2, "a.md", "k", "p2")], &[]);
    let rows = correlate(&base, &candidate).unwrap();
    assert_eq!(run(&base, &candidate), vec![(Outcome::Candidate, Reason::SameIntentSourceChanged, vec![1], vec![2])]);
    assert_eq!(rows[0].labels.source_change, SourceChange::Changed);
    assert_eq!(rows[0].labels.impact, Impact::SubjectChanged);
    let same = side(vec![obs(2, "a.md", "k", "p")], &[]);
    assert_eq!(run(&base, &same), vec![(Outcome::Candidate, Reason::SameIntentUnchangedProjection, vec![1], vec![2])]);
}

#[test]
fn unpaired_observations_are_removed_or_new() {
    let base = side(vec![obs(1, "a.md", "k", "p")], &[]);
    let candidate = side(vec![obs(2, "a.md", "other", "p")], &[]);
    let rows = correlate(&base, &candidate).unwrap();
    assert_eq!(
        run(&base, &candidate),
        vec![
            (Outcome::Unmatched, Reason::RemovedObservation, vec![1], vec![]),
            (Outcome::Unmatched, Reason::NewObservation, vec![], vec![2]),
        ]
    );
    assert_eq!(rows[0].labels.impact, Impact::RemovedObservation);
    assert_eq!(rows[1].labels.source_change, SourceChange::Added);
}

#[test]
fn several_counterparts_make_one_ambiguous_component() {
    let base = side(vec![obs(5, "a.md", "k", "p"), obs(4, "a.md", "k", "q")], &[]);
    let candidate = side(vec![obs(9, "a.md", "k", "r"), obs(6, "b.md", "k", "r")], &[]);
    let rows = correlate(&base, &candidate).unwrap();
    assert_eq!(run(&base, &candidate), vec![
        (Outcome::Unmatched, Reason::NewObservation, vec![], vec![6]),
        (Outcome::Ambiguous, Reason::MultipleCounterparts, vec![4, 5], vec![9]),
    ]);
    assert_eq!(rows[1].labels.target_change, TargetChange::NotComparable);
    assert_eq!(rows[1].labels.impact, Impact::ObservationCorrelationAmbiguous);
}

#[test]
fn a_renamed_document_keeps_its_references_by_projection() {
    let base = side(vec![obs(1, "old.md", "k", "p"), obs(2, "old.md", "k", "q")], &[("old.md", "blob")]);
    let candidate = side(vec![obs(3, "new.md", "k", "p"), obs(4, "new.md", "k", "z")], &[("new.md", "blob")]);
    assert_eq!(
        run(&base, &candidate),
        vec![
            (Outcome::Unmatched, Reason::RemovedObservation, vec![2], vec![]),
            (Outcome::Candidate, Reason::ExactDocumentRenameUnchangedProjection, vec![1], vec![3]),
            (Outcome::Unmatched, Reason::NewObservation, vec![], vec![4]),
        ]
    );
    // without the rename the documents differ and nothing pairs
    let moved = side(vec![obs(3, "new.md", "k", "p")], &[("new.md", "other")]);
    assert_eq!(
        run(&base, &moved),
        vec![
            (Outcome::Unmatched, Reason::RemovedObservation, vec![1], vec![]),
            (Outcome::Unmatched, Reason::RemovedObservation, vec![2], vec![]),
            (Outcome::Unmatched, Reason::NewObservation, vec![], vec![3]),
        ]
    );
}

#[test]
fn every_observation_appears_exactly_once() {
    let base = side(
        vec![obs(1, "a.md", "k", "p"), obs(2, "a.md", "k", "q"), obs(3, "b.md", "j", "p"), obs(8, "c.md", "x", "p")],
        &[],
    );
    let candidate = side(
        vec![obs(2, "a.md", "k", "q"), obs(5, "a.md", "k", "p"), obs(6, "b.md", "j", "r"), obs(7, "b.md", "j", "s")],
        &[],
    );
    let rows = correlate(&base, &candidate).unwrap();
    let mut seen_base = vec![0; base.observations.len()];
    let mut seen_candidate = vec![0; candidate.observations.len()];
    for row in &rows {
        for &i in row.base.iter().chain(row.alternatives_base.iter()) {
            seen_base[i] += 1;
        }
        for &j in row.candidate.iter().chain(row.alternatives_candidate.iter()) {
            seen_candidate[j] += 1;
        }
    }
    assert!(seen_base.iter().all(|&n| n == 1));
    assert!(seen_candidate.iter().all(|&n| n == 1));
    assert_eq!(
        run(&base, &candidate),
        vec![
            (Outcome::Unmatched, Reason::RemovedObservation, vec![8], vec![]),
            (Outcome::Exact, Reason::SameExtractionKeyAndProjection, vec![2], vec![2]),
            (Outcome::Candidate, Reason::SameIntentUnchangedProjection, vec![1], vec![5]),
            (Outcome::Ambiguous, Reason::MultipleCounterparts, vec![3], vec![6, 7]),
        ]
    );
}

#[test]
fn a_repeated_identity_is_refused() {
    let base = side(vec![obs(1, "a.md", "k", "p"), obs(1, "b.md", "k", "p")], &[]);
    let candidate = side(vec![], &[]);
    assert_eq!(correlate(&base, &candidate).err(), Some(CorrelationError::DuplicateIdentity));
    assert_eq!(correlate(&candidate, &base).err(), Some(CorrelationError::DuplicateIdentity));
}

fn entry(path: &str, mode: GitMode, oid: &str) -> TreeEntry {
    TreeEntry { path: path.as_bytes().to_vec(), mode, oid: oid.as_bytes().to_vec() }
}

fn moved(base: &[TreeEntry], candidate: &[TreeEntry], missing: &[&str]) -> Vec<(String, String)> {
    let missing: Vec<Vec<u8>> = missing.iter().map(|p| p.as_bytes().to_vec()).collect();
    directory_pairs(&base.iter().map(|e| entry_copy(e)).collect(), &candidate.iter().map(|e| entry_copy(e)).collect(), &missing)
        .into_iter()
        .map(|(from, to)| (String::from_utf8(from).unwrap(), String::from_utf8(to).unwrap()))
        .collect()
}

fn entry_copy(e: &TreeEntry) -> TreeEntry {
    TreeEntry { path: e.path.clone(), mode: e.mode, oid: e.oid.clone() }
}

fn docs_tree() -> Vec<TreeEntry> {
    vec![
        entry("docs", GitMode::Tree, "T"),
        entry("docs/a.md", GitMode::RegularFile, "A"),
        entry("docs/b.md", GitMode::RegularFile, "B"),
        entry("readme", GitMode::RegularFile, "R"),
    ]
}

#[test]
fn a_moved_directory_finds_its_one_counterpart() {
    let candidate = vec![
        entry("guide/a.md", GitMode::RegularFile, "A"),
        entry("guide/b.md", GitMode::RegularFile, "B"),
        entry("readme", GitMode::RegularFile, "R"),
    ];
    assert_eq!(moved(&docs_tree(), &candidate, &["docs", "readme", "docs"]), vec![("docs".to_owned(), "guide".to_owned())]);
}

#[test]
fn a_directory_with_two_counterparts_or_a_twin_stays_unpaired() {
    let two = vec![
        entry("guide/a.md", GitMode::RegularFile, "A"),
        entry("guide/b.md", GitMode::RegularFile, "B"),
        entry("manual/a.md", GitMode::RegularFile, "A"),
        entry("manual/b.md", GitMode::RegularFile, "B"),
    ];
    assert!(moved(&docs_tree(), &two, &["docs"]).is_empty());
    let mut twins = docs_tree();
    twins.push(entry("spare", GitMode::Tree, "T"));
    twins.push(entry("spare/a.md", GitMode::RegularFile, "A"));
    twins.push(entry("spare/b.md", GitMode::RegularFile, "B"));
    let one = vec![entry("guide/a.md", GitMode::RegularFile, "A"), entry("guide/b.md", GitMode::RegularFile, "B")];
    assert!(moved(&twins, &one, &["docs", "spare"]).is_empty());
}

#[test]
fn a_counterpart_must_hold_exactly_the_same_files() {
    let extra = vec![
        entry("guide/a.md", GitMode::RegularFile, "A"),
        entry("guide/b.md", GitMode::RegularFile, "B"),
        entry("guide/c.md", GitMode::RegularFile, "C"),
    ];
    assert!(moved(&docs_tree(), &extra, &["docs"]).is_empty());
    let changed = vec![entry("guide/a.md", GitMode::RegularFile, "A"), entry("guide/b.md", GitMode::RegularFile, "X")];
    assert!(moved(&docs_tree(), &changed, &["docs"]).is_empty());
    // a missing file is not a directory
    assert!(moved(&docs_tree(), &extra, &["readme"]).is_empty());
}
