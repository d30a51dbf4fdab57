//! Batching of opaque transaction payloads into bounded-size groups,
//! preserving order.

use vstd::prelude::*;

verus! {

/// The views of a sequence of chunks.
pub open spec fn chunk_views(cs: Seq<Vec<String>>) -> Seq<Seq<String>> {
    cs.map(|i: int, c: Vec<String>| c@)
}

/// Groups flat lists of transaction payloads into chunks of a configured
/// maximum size.
pub struct TransactionBatcher {
    pub max_batch_size: usize,
}

impl TransactionBatcher {
    /// A batcher with the given maximum chunk size, or the default of 100.
    pub fn new(max_batch_size: Option<usize>) -> (r: TransactionBatcher)
        ensures
            r.max_batch_size == match max_batch_size {
                Some(m) => m,
                None => 100usize,
            },
    {
        TransactionBatcher {
            max_batch_size: match max_batch_size {
                Some(m) => m,
                None => 100,
            },
        }
    }

    /// Splits the transactions into chunks: concatenated in order they are
    /// exactly the input, every chunk is nonempty and at most the maximum
    /// size, and every chunk but the last is exactly the maximum size.
    pub fn batch_transactions(&self, transactions: Vec<String>) -> (r: Vec<Vec<String>>)
        requires
            self.max_batch_size >= 1,
        ensures
            chunk_views(r@).flatten() == transactions@,
            forall|k: int| 0 <= k < r@.len() ==> 1 <= (#[trigger] r@[k])@.len()
                <= self.max_batch_size,
            forall|k: int| 0 <= k < r@.len() - 1 ==> (#[trigger] r@[k])@.len()
                == self.max_batch_size,
    {
        let mut chunks: Vec<Vec<String>> = Vec::new();
        let mut i: usize = 0;
        proof {
            assert(chunk_views(chunks@) =~= Seq::<Seq<String>>::empty());
            assert(chunk_views(chunks@).flatten() =~= transactions@.take(0));
        }
        while i < transactions.len()
            invariant
                0 <= i <= transactions@.len(),
                self.max_batch_size >= 1,
                chunk_views(chunks@).flatten() == transactions@.take(i as int),
                forall|k: int| 0 <= k < chunks@.len() ==> 1 <= (#[trigger] chunks@[k])@.len()
                    <= self.max_batch_size,
                forall|k: int| 0 <= k < chunks@.len() - 1 ==> (#[trigger] chunks@[k])@.len()
                    == self.max_batch_size,
                chunks@.len() > 0 && i < transactions@.len() ==> chunks@.last()@.len()
                    == self.max_batch_size,
            decreases transactions@.len() - i,
        {
            let ghost i_start = i as int;
            let mut chunk: Vec<String> = Vec::new();
            while chunk.len() < self.max_batch_size && i < transactions.len()
                invariant
                    0 <= i_start <= i as int <= transactions@.len(),
                    chunk@.len() == i as int - i_start,
                    chunk@.len() <= self.max_batch_size,
                    chunk@ == transactions@.subrange(i_start, i as int),
                decreases self.max_batch_size - chunk@.len(),
            {
                let ghost chunk_before = chunk@;
                chunk.push(transactions[i].clone());
                i = i + 1;
                proof {
                    assert(chunk@.len() == i as int - i_start);
                    assert(chunk@.last() == transactions@[i as int - 1]);
                    assert(chunk@.drop_last() =~= chunk_before);
                    assert(chunk@ =~= transactions@.subrange(i_start, i as int));
                }
            }
            let ghost chunks_before = chunk_views(chunks@);
            let ghost cview = chunk@;
            proof {
                assert(cview.len() >= 1);
            }
            chunks.push(chunk);
            proof {
                assert(chunk_views(chunks@) =~= chunks_before.push(cview));
                chunks_before.lemma_flatten_push(cview);
                assert(chunk_views(chunks@).flatten() =~= transactions@.take(i as int));
            }
        }
        proof {
            assert(transactions@.take(transactions@.len() as int) =~= transactions@);
        }
        chunks
    }
}

} // verus!
