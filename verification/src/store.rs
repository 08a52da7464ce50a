//! The in-memory document store: it owns the document bodies and the word
//! index built on the sharded multi-map.
//!
//! A published document gets the next identifier, counting from zero, and
//! is indexed under each of its words.  Splitting a document into words is
//! the caller's policy — the server splits on whitespace — so `publish`
//! takes the words alongside the text.  A search returns every identifier
//! indexed under the word; a retrieval returns the body stored under the
//! identifier.

use crate::multimap::ConcurrentMultiMap;
use vstd::prelude::*;

verus! {

/// How many shards the word index is built with.
pub const INDEX_SHARDS: usize = 16;

/// The document bodies, in publication order, and the word index.
pub struct DocumentStore {
    docs: Vec<String>,
    index: ConcurrentMultiMap,
}

impl DocumentStore {
    /// The index is well formed and the next identifier fits in 64 bits.
    pub closed spec fn wf(self) -> bool {
        &&& self.index.wf()
        &&& self.docs@.len() <= u64::MAX
    }

    /// The documents published so far, in publication order; a document's
    /// identifier is its position.
    pub closed spec fn documents(self) -> Seq<Seq<char>> {
        self.docs@.map_values(|d: String| d@)
    }

    /// The word index as (word, document identifier) pairs.
    pub closed spec fn index_pairs(self) -> Set<(Seq<char>, u64)> {
        self.index.contents()
    }

    /// An empty store.
    pub fn new() -> (store: Self)
        ensures
            store.wf(),
            store.documents() == Seq::<Seq<char>>::empty(),
            store.index_pairs() == Set::<(Seq<char>, u64)>::empty(),
    {
        let store = DocumentStore { docs: Vec::new(), index: ConcurrentMultiMap::new(
            INDEX_SHARDS,
        ) };
        proof {
            assert(store.documents() =~= Seq::<Seq<char>>::empty());
        }
        store
    }

    /// Store `doc` under the next identifier and index it under each word
    /// of `words`, the caller's tokenization of `doc`.  The index grows by
    /// exactly the pairs (word, new identifier).
    pub fn publish(&mut self, doc: String, words: Vec<String>) -> (id: u64)
        requires
            old(self).wf(),
            old(self).documents().len() < u64::MAX,
        ensures
            final(self).wf(),
            id == old(self).documents().len(),
            final(self).documents() == old(self).documents().push(doc@),
            forall|q: (Seq<char>, u64)| #[trigger]
                final(self).index_pairs().contains(q) <==> (old(self).index_pairs().contains(q) || (
                q.1 == id && exists|k: int| 0 <= k < words@.len() && (#[trigger] words@[k])@ == q.0
                )),
    {
        let id = self.docs.len() as u64;
        self.docs.push(doc);
        proof {
            assert(self.documents() =~= old(self).documents().push(doc@));
        }
        let mut k: usize = 0;
        while k < words.len()
            invariant
                k <= words@.len(),
                self.index.wf(),
                self.docs@.len() <= u64::MAX,
                self.docs@ == old(self).docs@.push(doc),
                forall|q: (Seq<char>, u64)| #[trigger]
                    self.index.contents().contains(q) <==> (old(self).index.contents().contains(q)
                        || (q.1 == id && exists|k2: int|
                        0 <= k2 < k && (#[trigger] words@[k2])@ == q.0)),
            decreases words@.len() - k,
        {
            let word = words[k].clone();
            let ghost before = self.index.contents();
            self.index.set(word, id);
            proof {
                let kk = k as int;
                assert forall|q: (Seq<char>, u64)| #[trigger]
                    self.index.contents().contains(q) implies (old(
                    self,
                ).index.contents().contains(q) || (q.1 == id && exists|k2: int|
                    0 <= k2 < kk + 1 && (#[trigger] words@[k2])@ == q.0)) by {
                    if q == (words@[kk]@, id) {
                        assert(0 <= kk < kk + 1 && words@[kk]@ == q.0);
                    } else {
                        assert(before.contains(q));
                        if !old(self).index.contents().contains(q) {
                            let k2 = choose|k2: int|
                                0 <= k2 < kk && (#[trigger] words@[k2])@ == q.0;
                            assert(0 <= k2 < kk + 1 && words@[k2]@ == q.0);
                        }
                    }
                }
                assert forall|q: (Seq<char>, u64)|
                    (old(self).index.contents().contains(q) || (q.1 == id && exists|k2: int|
                        0 <= k2 < kk + 1 && (#[trigger] words@[k2])@
                            == q.0)) implies #[trigger] self.index.contents().contains(q) by {
                    if old(self).index.contents().contains(q) {
                        assert(before.contains(q));
                    } else {
                        let k2 = choose|k2: int|
                            0 <= k2 < kk + 1 && (#[trigger] words@[k2])@ == q.0;
                        if k2 < kk {
                            assert(before.contains(q));
                        } else {
                            assert(q == (words@[kk]@, id));
                        }
                    }
                }
            }
            k = k + 1;
        }
        proof {
            assert(self.documents() =~= old(self).documents().push(doc@));
        }
        id
    }

    /// How many documents have been published; also the next identifier.
    pub fn document_count(&self) -> (n: u64)
        requires
            self.wf(),
        ensures
            n == self.documents().len(),
    {
        self.docs.len() as u64
    }

    /// Every identifier indexed under `word`, each exactly once, in no
    /// promised order.
    pub fn search(&self, word: &String) -> (ids: Vec<u64>)
        requires
            self.wf(),
        ensures
            forall|v: u64| #[trigger] ids@.contains(v) <==> self.index_pairs().contains((word@, v)),
            ids@.no_duplicates(),
    {
        self.index.get(word)
    }

    /// The document stored under `id`, or nothing when no document has that
    /// identifier.
    pub fn retrieve(&self, id: u64) -> (doc: Option<String>)
        requires
            self.wf(),
        ensures
            match doc {
                Some(d) => id < self.documents().len() && d@ == self.documents()[id as int],
                None => id >= self.documents().len(),
            },
    {
        if id < self.docs.len() as u64 {
            Some(self.docs[id as usize].clone())
        } else {
            None
        }
    }
}

} // verus!
