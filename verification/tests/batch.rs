use amiss::discovery::batch::{held_bytes, parse_jobs, Batch, PendingRead, StagedDocument, BATCH_BYTES, BATCH_DOCUMENTS};
use amiss::document::Adapter;

fn pending(body: Option<&[u8]>, adapter: Option<Adapter>, oid: &str) -> StagedDocument {
    StagedDocument::Pending(PendingRead {
        body: body.map(<[u8]>::to_vec),
        adapter,
        oid: oid.as_bytes().to_vec(),
    })
}

#[test]
fn a_batch_settles_once_it_holds_its_document_count() {
    let mut batch: Batch<usize> = Batch::new();
    for n in 0..BATCH_DOCUMENTS - 1 {
        assert!(batch.stage(n, 10).is_none());
    }
    let full = batch.stage(BATCH_DOCUMENTS - 1, 10).expect("the batch is full");
    assert_eq!(full.len(), BATCH_DOCUMENTS);
    assert_eq!(full[0], 0);
    assert_eq!(full[BATCH_DOCUMENTS - 1], BATCH_DOCUMENTS - 1);
    assert!(batch.finish().is_empty());
}

#[test]
fn a_batch_settles_once_it_holds_its_byte_budget() {
    let mut batch: Batch<&str> = Batch::new();
    assert!(batch.stage("a", BATCH_BYTES - 1).is_none());
    assert_eq!(batch.stage("b", 1), Some(vec!["a", "b"]));
    assert!(batch.stage("c", usize::MAX).is_some());
    assert!(batch.stage("d", 5).is_none());
    assert_eq!(batch.finish(), vec!["d"]);
}

#[test]
fn a_staged_document_holds_its_read_body() {
    assert_eq!(held_bytes(&StagedDocument::Settled), 0);
    assert_eq!(held_bytes(&pending(Some(b"# Title\n"), Some(Adapter::Markdown), "1")), 8);
    assert_eq!(held_bytes(&pending(None, Some(Adapter::Markdown), "1")), 0);
}

#[test]
fn each_blob_is_parsed_once_per_reader() {
    let pointer = format!(
        "version https://git-lfs.github.com/spec/v1\noid sha256:{}\nsize 3\n",
        "a".repeat(64)
    );
    let batch = vec![
        pending(Some(b"# One\n"), Some(Adapter::Markdown), "aa"),
        StagedDocument::Settled,
        pending(Some(b"# One\n"), Some(Adapter::Markdown), "aa"),
        pending(Some(b"One\n===\n"), Some(Adapter::Rst), "aa"),
        pending(Some(b"# Two\n"), Some(Adapter::Mdx), "bb"),
        pending(None, Some(Adapter::Markdown), "cc"),
        pending(Some(pointer.as_bytes()), Some(Adapter::Markdown), "dd"),
        pending(Some(b"text\n"), None, "ee"),
        pending(Some(b"# Three\n"), Some(Adapter::Markdown), "ff"),
    ];
    let (job_of, tasks) = parse_jobs(&batch);
    assert_eq!(job_of, vec![Some(0), None, None, Some(1), None, None, None, None, Some(2)]);
    assert_eq!(tasks, vec![0, 3, 8]);
}
