//! The indexing pipeline's per-stage logic.
//!
//! Parsed files flow through two stages before persistence: a batch
//! accumulator gathers them until enough embeddable spans are queued,
//! and the embedding-dispatch stage flattens a batch's spans into one
//! provider call and distributes the returned vectors back into the
//! right documents, in order.

use vstd::prelude::*;

use crate::indexer::{Document, IndexedFile};

verus! {

/// One parsed file on its way to the embedding stage: the id of its
/// worktree row, the indexed file, and the text spans to embed — one
/// per document, in document order.
pub struct BatchEntry {
    pub worktree_id: u64,
    pub file: IndexedFile,
    pub spans: Vec<String>,
}

/// Total number of spans across the queued entries.
pub open spec fn total_spans(q: Seq<BatchEntry>) -> nat
    decreases q.len(),
{
    if q.len() == 0 {
        0
    } else {
        total_spans(q.drop_last()) + q.last().spans@.len()
    }
}

/// Total number of documents across the queued entries.
pub open spec fn total_docs(q: Seq<BatchEntry>) -> nat
    decreases q.len(),
{
    if q.len() == 0 {
        0
    } else {
        total_docs(q.drop_last()) + q.last().file.documents@.len()
    }
}

/// All spans of a batch, flattened in entry order.
pub open spec fn flat_spans(q: Seq<BatchEntry>) -> Seq<String>
    decreases q.len(),
{
    if q.len() == 0 {
        Seq::empty()
    } else {
        flat_spans(q.drop_last()) + q.last().spans@
    }
}

/// The batch accumulator: entries are queued until the number of spans
/// reaches the batch size, then the whole queue is emitted as one
/// batch.
pub struct BatchAccumulator {
    pub queue: Vec<BatchEntry>,
    pub queue_len: usize,
    pub batch_size: usize,
}

impl BatchAccumulator {
    /// Structural invariant: `queue_len` counts the queued spans.
    pub open spec fn wf(self) -> bool {
        self.queue_len == total_spans(self.queue@)
    }

    /// An empty accumulator with the given span threshold.
    pub fn new(batch_size: usize) -> (a: BatchAccumulator)
        ensures
            a.wf(),
            a.queue@.len() == 0,
            a.batch_size == batch_size,
    {
        BatchAccumulator { queue: Vec::new(), queue_len: 0, batch_size }
    }

    /// Queues one entry. Once the queued spans reach the batch size,
    /// the accumulated entries are emitted in arrival order and the
    /// queue starts afresh.
    pub fn submit(&mut self, entry: BatchEntry) -> (out: Option<Vec<BatchEntry>>)
        requires
            old(self).wf(),
            total_spans(old(self).queue@) + entry.spans@.len() <= usize::MAX,
        ensures
            final(self).wf(),
            final(self).batch_size == old(self).batch_size,
            total_spans(old(self).queue@.push(entry)) >= old(self).batch_size ==> {
                &&& out is Some
                &&& out->0@ == old(self).queue@.push(entry)
                &&& final(self).queue@.len() == 0
            },
            total_spans(old(self).queue@.push(entry)) < old(self).batch_size ==> {
                &&& out is None
                &&& final(self).queue@ == old(self).queue@.push(entry)
            },
    {
        let spans_len: usize = entry.spans.len();
        proof {
            assert(old(self).queue@.push(entry).drop_last() =~= old(self).queue@);
        }
        self.queue.push(entry);
        self.queue_len = self.queue_len + spans_len;
        if self.queue_len >= self.batch_size {
            let mut out: Vec<BatchEntry> = Vec::new();
            core::mem::swap(&mut out, &mut self.queue);
            self.queue_len = 0;
            Some(out)
        } else {
            None
        }
    }

    /// Emits whatever is queued, if anything: on close a partial batch
    /// is flushed rather than lost.
    pub fn flush(&mut self) -> (out: Option<Vec<BatchEntry>>)
        requires
            old(self).wf(),
        ensures
            final(self).wf(),
            final(self).batch_size == old(self).batch_size,
            final(self).queue@.len() == 0,
            old(self).queue@.len() > 0 ==> out is Some && out->0@ == old(self).queue@,
            old(self).queue@.len() == 0 ==> out is None,
    {
        if self.queue.len() > 0 {
            let mut out: Vec<BatchEntry> = Vec::new();
            core::mem::swap(&mut out, &mut self.queue);
            self.queue_len = 0;
            Some(out)
        } else {
            None
        }
    }
}

/// All spans of a batch in one list, ready for a single embedding
/// call.
pub fn flatten_spans(batch: &Vec<BatchEntry>) -> (r: Vec<String>)
    ensures
        r@ == flat_spans(batch@),
{
    let mut r: Vec<String> = Vec::new();
    let n: usize = batch.len();
    let mut i: usize = 0;
    proof {
        assert(batch@.take(0) =~= Seq::<BatchEntry>::empty());
    }
    while i < n
        invariant
            n == batch@.len(),
            i <= n,
            r@ == flat_spans(batch@.take(i as int)),
        decreases n - i,
    {
        proof {
            assert(batch@.take(i + 1).drop_last() =~= batch@.take(i as int));
            assert(batch@.take(i + 1).last() == batch@[i as int]);
        }
        let m: usize = batch[i].spans.len();
        let mut j: usize = 0;
        while j < m
            invariant
                n == batch@.len(),
                i < n,
                m == batch@[i as int].spans@.len(),
                j <= m,
                r@ == flat_spans(batch@.take(i as int)) + batch@[i as int].spans@.take(j as int),
            decreases m - j,
        {
            r.push(batch[i].spans[j].clone());
            proof {
                assert(batch@[i as int].spans@.take(j + 1) =~= batch@[i as int].spans@.take(
                    j as int,
                ).push(batch@[i as int].spans@[j as int]));
                assert(r@ =~= flat_spans(batch@.take(i as int)) + batch@[i as int].spans@.take(
                    j + 1,
                ));
            }
            j = j + 1;
        }
        proof {
            assert(batch@[i as int].spans@.take(m as int) =~= batch@[i as int].spans@);
        }
        i = i + 1;
    }
    proof {
        assert(batch@.take(n as int) =~= batch@);
    }
    r
}

/// An exact copy of an embedding vector.
fn clone_embedding(v: &Vec<i32>) -> (r: Vec<i32>)
    ensures
        r@ == v@,
{
    let mut r: Vec<i32> = Vec::new();
    let n: usize = v.len();
    let mut i: usize = 0;
    while i < n
        invariant
            n == v@.len(),
            i <= n,
            r@ == v@.take(i as int),
        decreases n - i,
    {
        r.push(v[i]);
        proof {
            assert(v@.take(i + 1) =~= v@.take(i as int).push(v@[i as int]));
        }
        i = i + 1;
    }
    proof {
        assert(v@.take(n as int) =~= v@);
    }
    r
}

/// Did the distribution succeed, and is `out` the batch with every
/// document's embedding filled from `embeddings`, consumed in order
/// across the batch's files?
pub open spec fn distributed(
    batch: Seq<BatchEntry>,
    embeddings: Seq<Vec<i32>>,
    out: Seq<(u64, IndexedFile)>,
) -> bool {
    &&& out.len() == batch.len()
    &&& forall|i: int|
        0 <= i < batch.len() ==> {
            let e = #[trigger] out[i];
            &&& e.0 == batch[i].worktree_id
            &&& e.1.path == batch[i].file.path
            &&& e.1.mtime == batch[i].file.mtime
            &&& e.1.documents@.len() == batch[i].file.documents@.len()
            &&& forall|j: int|
                0 <= j < e.1.documents@.len() ==> {
                    let d = #[trigger] e.1.documents@[j];
                    &&& d.offset == batch[i].file.documents@[j].offset
                    &&& d.name == batch[i].file.documents@[j].name
                    &&& d.embedding@ == embeddings[total_docs(batch.take(i)) + j]@
                }
        }
}

/// Distributes the vectors an embedding call returned over the batch's
/// documents: vectors are consumed in order, advancing to the next
/// file when the current one's documents are filled. Fails — and
/// changes nothing — when the provider returned a different number of
/// vectors than the batch has documents.
pub fn distribute_embeddings(batch: &Vec<BatchEntry>, embeddings: &Vec<Vec<i32>>) -> (r: Option<
    Vec<(u64, IndexedFile)>,
>)
    ensures
        r is Some <==> embeddings@.len() == total_docs(batch@),
        r is Some ==> distributed(batch@, embeddings@, r->0@),
{
    let mut out: Vec<(u64, IndexedFile)> = Vec::new();
    let total: usize = embeddings.len();
    let mut k: usize = 0;
    let n: usize = batch.len();
    let mut i: usize = 0;
    proof {
        assert(batch@.take(0) =~= Seq::<BatchEntry>::empty());
    }
    while i < n
        invariant
            n == batch@.len(),
            i <= n,
            total == embeddings@.len(),
            k == total_docs(batch@.take(i as int)),
            k <= total,
            out@.len() == i,
            forall|a: int|
                0 <= a < i ==> {
                    let e = #[trigger] out@[a];
                    &&& e.0 == batch@[a].worktree_id
                    &&& e.1.path == batch@[a].file.path
                    &&& e.1.mtime == batch@[a].file.mtime
                    &&& e.1.documents@.len() == batch@[a].file.documents@.len()
                    &&& forall|j: int|
                        0 <= j < e.1.documents@.len() ==> {
                            let d = #[trigger] e.1.documents@[j];
                            &&& d.offset == batch@[a].file.documents@[j].offset
                            &&& d.name == batch@[a].file.documents@[j].name
                            &&& d.embedding@ == embeddings@[total_docs(batch@.take(a)) + j]@
                        }
                },
        decreases n - i,
    {
        proof {
            assert(batch@.take(i + 1).drop_last() =~= batch@.take(i as int));
            assert(batch@.take(i + 1).last() == batch@[i as int]);
        }
        let ghost k0 = k as int;
        let m: usize = batch[i].file.documents.len();
        let mut docs: Vec<Document> = Vec::new();
        let mut j: usize = 0;
        while j < m
            invariant
                n == batch@.len(),
                i < n,
                total == embeddings@.len(),
                m == batch@[i as int].file.documents@.len(),
                j <= m,
                k0 == total_docs(batch@.take(i as int)),
                k == k0 + j,
                k <= total,
                docs@.len() == j,
                forall|l: int|
                    0 <= l < j ==> {
                        let d = #[trigger] docs@[l];
                        &&& d.offset == batch@[i as int].file.documents@[l].offset
                        &&& d.name == batch@[i as int].file.documents@[l].name
                        &&& d.embedding@ == embeddings@[k0 + l]@
                    },
            decreases m - j,
        {
            if k == total {
                proof {
                    lemma_total_docs_take_succ(batch@, i as int);
                    lemma_total_docs_prefix_le(batch@, i + 1);
                }
                return None;
            }
            let src: &Document = &batch[i].file.documents[j];
            docs.push(
                Document {
                    offset: src.offset,
                    name: src.name.clone(),
                    embedding: clone_embedding(&embeddings[k]),
                },
            );
            k = k + 1;
            j = j + 1;
        }
        let entry: &BatchEntry = &batch[i];
        out.push(
            (
                entry.worktree_id,
                IndexedFile {
                    path: entry.file.path.clone(),
                    mtime: entry.file.mtime,
                    documents: docs,
                },
            ),
        );
        proof {
            lemma_total_docs_take_succ(batch@, i as int);
        }
        i = i + 1;
    }
    proof {
        assert(batch@.take(n as int) =~= batch@);
    }
    if k != total {
        return None;
    }
    Some(out)
}

/// One more entry adds its document count to the running total.
proof fn lemma_total_docs_take_succ(q: Seq<BatchEntry>, i: int)
    requires
        0 <= i < q.len(),
    ensures
        total_docs(q.take(i + 1)) == total_docs(q.take(i)) + q[i].file.documents@.len(),
{
    assert(q.take(i + 1).drop_last() =~= q.take(i));
    assert(q.take(i + 1).last() == q[i]);
}

/// A prefix never holds more documents than the whole.
proof fn lemma_total_docs_prefix_le(q: Seq<BatchEntry>, i: int)
    requires
        0 <= i <= q.len(),
    ensures
        total_docs(q.take(i)) <= total_docs(q),
    decreases q.len() - i,
{
    if i == q.len() {
        assert(q.take(i) =~= q);
    } else {
        lemma_total_docs_take_succ(q, i);
        lemma_total_docs_prefix_le(q, i + 1);
    }
}

} // verus!
