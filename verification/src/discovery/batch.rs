//! How a walk holds classified documents back and settles them together:
//! when a batch is full, what a staged document holds in memory, and which
//! documents of a batch are parsed, each blob once per reader.

use crate::bytes::same_bytes;
use crate::document::Adapter;
use crate::lfs::{is_pointer, is_pointer_spec};
use vstd::prelude::*;

verus! {

/// How many documents a walk holds back before settling them.
pub const BATCH_DOCUMENTS: usize = 256;

/// How many blob bytes the documents held back may hold together.
pub const BATCH_BYTES: usize = 33554432;

/// `n`, or the largest `usize` where `n` is larger.
pub open spec fn saturated(n: int) -> nat {
    if n > usize::MAX {
        usize::MAX as nat
    } else if n < 0 {
        0
    } else {
        n as nat
    }
}

/// The documents a walk has staged and not yet settled, and the blob bytes
/// they hold.
pub struct Batch<T> {
    staged: Vec<T>,
    held: usize,
}

impl<T> Batch<T> {
    /// The staged documents, in tree order.
    pub closed spec fn items(self) -> Seq<T> {
        self.staged@
    }

    /// The blob bytes the staged documents hold.
    pub closed spec fn held(self) -> nat {
        self.held as nat
    }

    /// A batch is never left full: it is settled as soon as it is.
    pub open spec fn wf(self) -> bool {
        self.items().len() < BATCH_DOCUMENTS && self.held() < BATCH_BYTES
    }

    /// An empty batch.
    pub fn new() -> (b: Self)
        ensures
            b.wf(),
            b.items() == Seq::<T>::empty(),
            b.held() == 0,
    {
        Batch { staged: Vec::new(), held: 0 }
    }

    /// Takes one staged document holding `bytes` blob bytes. Once the batch
    /// holds as many documents or as many bytes as it may, the whole batch is
    /// handed back to be settled and an empty one takes its place.
    pub fn stage(&mut self, staged: T, bytes: usize) -> (full: Option<Vec<T>>)
        requires
            old(self).wf(),
        ensures
            final(self).wf(),
            old(self).items().len() + 1 < BATCH_DOCUMENTS && saturated(old(self).held() + bytes)
                < BATCH_BYTES ==> {
                &&& full is None
                &&& final(self).items() == old(self).items().push(staged)
                &&& final(self).held() == saturated(old(self).held() + bytes)
            },
            !(old(self).items().len() + 1 < BATCH_DOCUMENTS && saturated(old(self).held() + bytes)
                < BATCH_BYTES) ==> {
                &&& full is Some
                &&& full.unwrap()@ == old(self).items().push(staged)
                &&& final(self).items() == Seq::<T>::empty()
                &&& final(self).held() == 0
            },
    {
        let held = self.held.saturating_add(bytes);
        self.staged.push(staged);
        if self.staged.len() < BATCH_DOCUMENTS && held < BATCH_BYTES {
            self.held = held;
            return None;
        }
        let mut settled: Vec<T> = Vec::new();
        std::mem::swap(&mut settled, &mut self.staged);
        self.held = 0;
        Some(settled)
    }

    /// What is left to settle once the walk is done.
    pub fn finish(self) -> (r: Vec<T>)
        ensures
            r@ == self.items(),
    {
        self.staged
    }
}

/// A document the walk read and has not settled yet: its body, where the
/// read succeeded, the reader it is bound to, and the blob it came from.
pub struct PendingRead {
    pub body: Option<Vec<u8>>,
    pub adapter: Option<Adapter>,
    pub oid: Vec<u8>,
}

/// A classified document as a batch holds it: settled on the spot, or read
/// and waiting for its parse.
pub enum StagedDocument {
    Settled,
    Pending(PendingRead),
}

/// The blob bytes a staged document holds in memory.
pub open spec fn held_bytes_of(s: StagedDocument) -> nat {
    match s {
        StagedDocument::Settled => 0,
        StagedDocument::Pending(p) => match p.body {
            Some(body) => body@.len(),
            None => 0,
        },
    }
}

/// The blob bytes a staged document holds in memory.
pub fn held_bytes(s: &StagedDocument) -> (r: usize)
    ensures
        r == held_bytes_of(*s),
{
    match s {
        StagedDocument::Settled => 0,
        StagedDocument::Pending(p) => match &p.body {
            Some(body) => body.len(),
            None => 0,
        },
    }
}

/// The blob and reader a staged document is parsed under, when it is parsed
/// at all: its read succeeded, a reader is bound to it, the reader parses
/// without embedded-code allowances, and the body is no LFS pointer.
pub open spec fn parse_key(s: StagedDocument) -> Option<(Seq<u8>, Adapter)> {
    match s {
        StagedDocument::Settled => None,
        StagedDocument::Pending(p) => match p.body {
            None => None,
            Some(body) => match p.adapter {
                None => None,
                Some(a) => if a != Adapter::Mdx && !is_pointer_spec(body@) {
                    Some((p.oid@, a))
                } else {
                    None
                },
            },
        },
    }
}

/// The parse keys of a batch.
pub open spec fn parse_keys(v: Seq<StagedDocument>) -> Seq<Option<(Seq<u8>, Adapter)>> {
    v.map_values(|s: StagedDocument| parse_key(s))
}

/// Whether a document before position `i` is parsed under the key at `i`.
pub open spec fn seen_before(keys: Seq<Option<(Seq<u8>, Adapter)>>, i: int) -> bool {
    exists|j: int| 0 <= j < i && keys[j] is Some && #[trigger] keys[j] == keys[i]
}

/// Whether the document at `i` is the first of its key, and so gets a job.
pub open spec fn first_at(keys: Seq<Option<(Seq<u8>, Adapter)>>, i: int) -> bool {
    keys[i] is Some && !seen_before(keys, i)
}

/// How many documents before position `i` get a job.
pub open spec fn firsts(keys: Seq<Option<(Seq<u8>, Adapter)>>, i: int) -> nat
    decreases i,
{
    if i <= 0 {
        0
    } else {
        firsts(keys, i - 1) + if first_at(keys, i - 1) {
            1nat
        } else {
            0nat
        }
    }
}

proof fn lemma_firsts_monotone(keys: Seq<Option<(Seq<u8>, Adapter)>>, i: int, j: int)
    requires
        0 <= i <= j,
    ensures
        firsts(keys, i) <= firsts(keys, j),
        i < j && first_at(keys, i) ==> firsts(keys, i) < firsts(keys, j),
    decreases j - i,
{
    if i < j {
        lemma_firsts_monotone(keys, i, j - 1);
        if first_at(keys, i) && i < j - 1 {
            lemma_firsts_monotone(keys, i + 1, j - 1);
        }
    }
}

/// Every document that is parsed at all shares its blob and reader with a
/// document at or before it that gets a job.
pub proof fn lemma_first_of_key(keys: Seq<Option<(Seq<u8>, Adapter)>>, j: int)
    requires
        0 <= j < keys.len(),
        keys[j] is Some,
    ensures
        exists|k: int| 0 <= k <= j && first_at(keys, k) && #[trigger] keys[k] == keys[j],
    decreases j,
{
    if first_at(keys, j) {
        assert(keys[j] == keys[j]);
    } else {
        let k = choose|k: int| 0 <= k < j && keys[k] is Some && #[trigger] keys[k] == keys[j];
        lemma_first_of_key(keys, k);
        let m = choose|m: int| 0 <= m <= k && first_at(keys, m) && #[trigger] keys[m] == keys[k];
        assert(keys[m] == keys[j]);
    }
}

/// Two documents that both get a job never share a blob and a reader: each
/// blob is parsed once per reader.
pub proof fn lemma_jobs_have_distinct_keys(keys: Seq<Option<(Seq<u8>, Adapter)>>, i: int, j: int)
    requires
        0 <= i < j < keys.len(),
        first_at(keys, i),
        first_at(keys, j),
    ensures
        keys[i] != keys[j],
{
    if keys[i] == keys[j] {
        assert(seen_before(keys, j));
    }
}

/// Whether a staged document is parsed at all.
fn parsed(s: &StagedDocument) -> (r: bool)
    ensures
        r == parse_key(*s) is Some,
{
    match s {
        StagedDocument::Settled => false,
        StagedDocument::Pending(p) => match (&p.body, p.adapter) {
            (Some(body), Some(a)) => a != Adapter::Mdx && !is_pointer(body.as_slice()),
            _ => false,
        },
    }
}

/// Whether two parsed documents share a blob and a reader.
fn same_key(a: &StagedDocument, b: &StagedDocument) -> (r: bool)
    requires
        parse_key(*a) is Some,
        parse_key(*b) is Some,
    ensures
        r == (parse_key(*a) == parse_key(*b)),
{
    match (a, b) {
        (StagedDocument::Pending(p), StagedDocument::Pending(q)) => {
            let same_adapter = match (p.adapter, q.adapter) {
                (Some(x), Some(y)) => x == y,
                _ => false,
            };
            same_adapter && same_bytes(p.oid.as_slice(), q.oid.as_slice())
        },
        _ => false,
    }
}

/// Which documents of a batch are parsed: each pending document whose read
/// succeeded, whose reader is bound and parses without embedded-code
/// allowances, and whose body is no LFS pointer, the first time its blob and
/// reader come up. The first result gives each document its job, the second
/// each job its document, in tree order.
pub fn parse_jobs(batch: &Vec<StagedDocument>) -> (r: (Vec<Option<usize>>, Vec<usize>))
    ensures
        r.0@.len() == batch@.len(),
        r.1@.len() == firsts(parse_keys(batch@), batch@.len() as int),
        forall|i: int|
            0 <= i < batch@.len() ==> #[trigger] r.0@[i] == if first_at(parse_keys(batch@), i) {
                Some(firsts(parse_keys(batch@), i) as usize)
            } else {
                None::<usize>
            },
        forall|p: int|
            0 <= p < r.1@.len() ==> {
                &&& #[trigger] r.1@[p] < batch@.len()
                &&& first_at(parse_keys(batch@), r.1@[p] as int)
                &&& firsts(parse_keys(batch@), r.1@[p] as int) == p
            },
{
    let ghost keys = parse_keys(batch@);
    let mut job_of: Vec<Option<usize>> = Vec::new();
    let mut tasks: Vec<usize> = Vec::new();
    let mut i: usize = 0;
    while i < batch.len()
        invariant
            i <= batch@.len(),
            keys == parse_keys(batch@),
            keys.len() == batch@.len(),
            job_of@.len() == i,
            tasks@.len() == firsts(keys, i as int),
            forall|k: int|
                0 <= k < i ==> #[trigger] job_of@[k] == if first_at(keys, k) {
                    Some(firsts(keys, k) as usize)
                } else {
                    None::<usize>
                },
            forall|p: int|
                0 <= p < tasks@.len() ==> {
                    &&& #[trigger] tasks@[p] < i
                    &&& first_at(keys, tasks@[p] as int)
                    &&& firsts(keys, tasks@[p] as int) == p
                },
            forall|k: int| 0 <= k < i && first_at(keys, k) ==> tasks@[firsts(keys, k) as int] == k,
            tasks@.len() <= i,
        decreases batch@.len() - i,
    {
        assert(keys[i as int] == parse_key(batch@[i as int]));
        let ghost before = tasks@;
        let mut job: Option<usize> = None;
        if parsed(&batch[i]) {
            let mut p: usize = 0;
            let mut found = false;
            while p < tasks.len()
                invariant
                    p <= tasks@.len(),
                    i < batch@.len(),
                    keys == parse_keys(batch@),
                    keys.len() == batch@.len(),
                    keys[i as int] is Some,
                    forall|q: int|
                        0 <= q < tasks@.len() ==> {
                            &&& #[trigger] tasks@[q] < i
                            &&& first_at(keys, tasks@[q] as int)
                            &&& firsts(keys, tasks@[q] as int) == q
                        },
                    found ==> seen_before(keys, i as int),
                    !found ==> forall|q: int| 0 <= q < p ==> keys[#[trigger] tasks@[q] as int] != keys[i as int],
                decreases tasks@.len() - p,
            {
                let t = tasks[p];
                assert(keys[t as int] == parse_key(batch@[t as int]));
                if same_key(&batch[t], &batch[i]) {
                    assert(keys[t as int] == keys[i as int]);
                    found = true;
                }
                p = p + 1;
            }
            if !found {
                proof {
                    if seen_before(keys, i as int) {
                        let j = choose|j: int| 0 <= j < i && keys[j] is Some && #[trigger] keys[j] == keys[i as int];
                        lemma_first_of_key(keys, j);
                        let m = choose|m: int| 0 <= m <= j && first_at(keys, m) && #[trigger] keys[m] == keys[j];
                        lemma_firsts_monotone(keys, m, i as int);
                        let q = firsts(keys, m) as int;
                        assert(tasks@[q] == m);
                        assert(keys[tasks@[q] as int] == keys[i as int]);
                        assert(false);
                    }
                }
                job = Some(tasks.len());
                tasks.push(i);
            }
        }
        job_of.push(job);
        proof {
            assert(job is Some <==> first_at(keys, i as int));
            assert(firsts(keys, i as int + 1) == firsts(keys, i as int) + if first_at(keys, i as int) {
                1nat
            } else {
                0nat
            });
            assert(forall|p: int| 0 <= p < before.len() ==> tasks@[p] == before[p]);
            assert forall|k: int| 0 <= k < i + 1 && first_at(keys, k) implies tasks@[firsts(keys, k) as int] == k by {
                if k < i {
                    lemma_firsts_monotone(keys, k, i as int);
                }
            }
            assert forall|p: int| 0 <= p < tasks@.len() implies {
                &&& #[trigger] tasks@[p] < i + 1
                &&& first_at(keys, tasks@[p] as int)
                &&& firsts(keys, tasks@[p] as int) == p
            } by {
                if p < before.len() {
                    assert(tasks@[p] == before[p]);
                }
            }
        }
        i = i + 1;
    }
    (job_of, tasks)
}

} // verus!
