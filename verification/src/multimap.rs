//! The sharded multi-map backing the word index: one key maps to many
//! values, and a `(key, value)` pair is held at most once.
//!
//! Pairs are spread over a fixed number of shards ("buckets"), chosen at
//! construction; a pair lives in the shard its key hashes to, so an exclusive
//! lock taken around one shard — or, as the server does, around the map for
//! one operation — never contends with operations on keys of other shards.
//! Entries are never removed: the index is append-only.

use std::collections::hash_map::DefaultHasher;
use std::hash::{Hash, Hasher};
use vstd::prelude::*;

verus! {

/// The digest that `std`'s `DefaultHasher` assigns to a key.
pub uninterp spec fn hash_of(key: Seq<char>) -> u64;

/// Relies on `std::collections::hash_map::DefaultHasher`: every hasher made
/// by `DefaultHasher::new()` is documented to be identical, so the digest it
/// gives a string depends on the string's characters alone.
#[verifier::external_body]
fn hash_key(key: &str) -> (r: u64)
    ensures
        r == hash_of(key@),
{
    let mut hasher = DefaultHasher::new();
    key.hash(&mut hasher);
    hasher.finish()
}

/// A multi-map from words to document identifiers, split into shards.
///
/// Each shard holds the pairs whose key hashes to it, each pair at most
/// once.  `set` inserts a pair idempotently; `get` returns every value ever
/// inserted under a key, without duplicates and in no promised order.
pub struct ConcurrentMultiMap {
    buckets: Vec<Vec<(String, u64)>>,
}

/// Whether the shard slice holds a pair with this key (as characters) and value.
pub open spec fn pair_in_bucket(bucket: Seq<(String, u64)>, p: (Seq<char>, u64)) -> bool {
    exists|j: int|
        0 <= j < bucket.len() && (#[trigger] bucket[j]).0@ == p.0 && bucket[j].1 == p.1
}

impl ConcurrentMultiMap {
    /// How many shards the map was built with.
    pub closed spec fn bucket_count(self) -> nat {
        self.buckets@.len()
    }

    /// The pairs the map holds, over all shards, as (characters, value).
    pub closed spec fn contents(self) -> Set<(Seq<char>, u64)> {
        Set::new(
            |p: (Seq<char>, u64)|
                exists|i: int|
                    0 <= i < self.buckets@.len() && pair_in_bucket(
                        #[trigger] self.buckets@[i]@,
                        p,
                    ),
        )
    }

    /// Every pair sits in the shard its key hashes to, and no shard holds
    /// the same pair twice.
    pub closed spec fn wf(self) -> bool {
        &&& self.buckets@.len() >= 1
        &&& forall|i: int, j: int|
            0 <= i < self.buckets@.len() && 0 <= j < self.buckets@[i]@.len()
                ==> hash_of((#[trigger] self.buckets@[i]@[j]).0@) as nat % self.buckets@.len() == i
        &&& forall|i: int, j1: int, j2: int|
            0 <= i < self.buckets@.len() && 0 <= j1 < j2 < self.buckets@[i]@.len() ==> !((
            #[trigger] self.buckets@[i]@[j1]).0@ == (#[trigger] self.buckets@[i]@[j2]).0@
                && self.buckets@[i]@[j1].1 == self.buckets@[i]@[j2].1)
    }

    /// Create an empty map with `bucket_count` shards.
    pub fn new(bucket_count: usize) -> (map: Self)
        requires
            bucket_count >= 1,
        ensures
            map.wf(),
            map.bucket_count() == bucket_count,
            map.contents() == Set::<(Seq<char>, u64)>::empty(),
    {
        let mut buckets: Vec<Vec<(String, u64)>> = Vec::new();
        let mut i: usize = 0;
        while i < bucket_count
            invariant
                i <= bucket_count,
                buckets@.len() == i,
                forall|k: int| 0 <= k < i ==> (#[trigger] buckets@[k])@.len() == 0,
            decreases bucket_count - i,
        {
            buckets.push(Vec::new());
            i = i + 1;
        }
        let map = ConcurrentMultiMap { buckets };
        proof {
            assert(map.contents() =~= Set::<(Seq<char>, u64)>::empty());
        }
        map
    }

    /// The shard index for `key`: its hash modulo the shard count.
    pub fn get_bucket_index(&self, key: &str) -> (idx: usize)
        requires
            self.wf(),
        ensures
            idx == hash_of(key@) as nat % self.bucket_count(),
            idx < self.bucket_count(),
    {
        let h = hash_key(key);
        (h % (self.buckets.len() as u64)) as usize
    }

    /// Associate `value` with `key`.  Inserting a pair the map already holds
    /// leaves the map unchanged: as a set of pairs, the map grows by exactly
    /// this pair.
    pub fn set(&mut self, key: String, value: u64)
        requires
            old(self).wf(),
        ensures
            final(self).wf(),
            final(self).bucket_count() == old(self).bucket_count(),
            final(self).contents() == old(self).contents().insert((key@, value)),
    {
        let idx = self.get_bucket_index(key.as_str());
        let ghost p = (key@, value);
        let mut j: usize = 0;
        let bucket_len = self.buckets[idx].len();
        while j < bucket_len
            invariant
                old(self).wf(),
                *self == *old(self),
                0 <= idx < self.buckets@.len(),
                bucket_len == self.buckets@[idx as int]@.len(),
                j <= bucket_len,
                forall|j2: int|
                    0 <= j2 < j ==> !((#[trigger] self.buckets@[idx as int]@[j2]).0@ == key@
                        && self.buckets@[idx as int]@[j2].1 == value),
            decreases bucket_len - j,
        {
            let pair = &self.buckets[idx][j];
            let hit = pair.0 == key && pair.1 == value;
            if hit {
                proof {
                    assert((self.buckets@[idx as int]@[j as int]).0@ == key@
                        && self.buckets@[idx as int]@[j as int].1 == value);
                    assert(pair_in_bucket(self.buckets@[idx as int]@, (key@, value)));
                    assert(self.contents().contains((key@, value)));
                    assert(self.contents() =~= old(self).contents().insert((key@, value)));
                }
                return ;
            }
            j = j + 1;
        }
        let ghost old_map = *self;
        let ghost old_bucket = self.buckets@[idx as int]@;
        self.buckets[idx].push((key, value));
        proof {
            let blen = old_bucket.len() as int;
            assert(self.buckets@[idx as int]@.subrange(0, blen) =~= old_bucket);
            assert(self.buckets@[idx as int]@[blen].0@ == p.0);
            assert(self.buckets@[idx as int]@[blen].1 == p.1);
            assert forall|i: int|
                0 <= i < old_map.buckets@.len() && i != idx as int implies (
            #[trigger] self.buckets@[i])@ == old_map.buckets@[i]@ by {
                assert(self.buckets@[i] == old_map.buckets@[i]);
            }
            lemma_contents_after_push(old_map, *self, idx as int, p);
            assert forall|i: int, j1: int|
                0 <= i < self.buckets@.len() && 0 <= j1 < self.buckets@[i]@.len() implies hash_of(
                (#[trigger] self.buckets@[i]@[j1]).0@,
            ) as nat % self.buckets@.len() == i by {
                if i == idx as int && j1 == blen {
                } else {
                    assert(self.buckets@[i]@[j1] == old_map.buckets@[i]@[j1]);
                }
            }
            assert forall|i: int, j1: int, j2: int|
                0 <= i < self.buckets@.len() && 0 <= j1 < j2 < self.buckets@[i]@.len() implies !((
            #[trigger] self.buckets@[i]@[j1]).0@ == (#[trigger] self.buckets@[i]@[j2]).0@
                && self.buckets@[i]@[j1].1 == self.buckets@[i]@[j2].1) by {
                if i == idx as int {
                    if j2 == blen {
                        assert(self.buckets@[i]@[j1] == old_bucket[j1]);
                    } else {
                        assert(self.buckets@[i]@[j1] == old_map.buckets@[i]@[j1]);
                        assert(self.buckets@[i]@[j2] == old_map.buckets@[i]@[j2]);
                    }
                } else {
                    assert(self.buckets@[i]@[j1] == old_map.buckets@[i]@[j1]);
                    assert(self.buckets@[i]@[j2] == old_map.buckets@[i]@[j2]);
                }
            }
        }
    }

    /// Every value ever inserted under `key`, each exactly once, in no
    /// promised order.
    pub fn get(&self, key: &String) -> (values: Vec<u64>)
        requires
            self.wf(),
        ensures
            forall|v: u64| #[trigger] values@.contains(v) <==> self.contents().contains((key@, v)),
            values@.no_duplicates(),
    {
        let idx = self.get_bucket_index(key.as_str());
        let mut values: Vec<u64> = Vec::new();
        let mut j: usize = 0;
        let bucket_len = self.buckets[idx].len();
        while j < bucket_len
            invariant
                self.wf(),
                0 <= idx < self.buckets@.len(),
                idx == hash_of(key@) as nat % self.bucket_count(),
                bucket_len == self.buckets@[idx as int]@.len(),
                j <= bucket_len,
                forall|v: u64| #[trigger]
                    values@.contains(v) <==> exists|j2: int|
                        0 <= j2 < j && (#[trigger] self.buckets@[idx as int]@[j2]).0@ == key@
                            && self.buckets@[idx as int]@[j2].1 == v,
                values@.no_duplicates(),
            decreases bucket_len - j,
        {
            let ghost bucket = self.buckets@[idx as int]@;
            let hit = {
                let pair = &self.buckets[idx][j];
                pair.0 == *key
            };
            if hit {
                let v = self.buckets[idx][j].1;
                proof {
                    if values@.contains(v) {
                        let j2 = choose|j2: int|
                            0 <= j2 < j && (#[trigger] bucket[j2]).0@ == key@ && bucket[j2].1 == v;
                        let jj = j as int;
                        assert(!(bucket[j2].0@ == bucket[jj].0@ && bucket[j2].1 == bucket[jj].1));
                        assert(false);
                    }
                }
                let ghost prev_values = values@;
                values.push(v);
                proof {
                    assert forall|v2: u64| #[trigger]
                        values@.contains(v2) implies exists|j2: int|
                            0 <= j2 < j + 1 && (#[trigger] bucket[j2]).0@ == key@ && bucket[j2].1
                                == v2 by {
                        let k = choose|k: int| 0 <= k < values@.len() && values@[k] == v2;
                        if k < prev_values.len() {
                            assert(prev_values[k] == v2);
                            assert(prev_values.contains(v2));
                            let j2 = choose|j2: int|
                                0 <= j2 < j && (#[trigger] bucket[j2]).0@ == key@ && bucket[j2].1
                                    == v2;
                            assert(0 <= j2 < j + 1 && bucket[j2].0@ == key@ && bucket[j2].1 == v2);
                        } else {
                            assert(v2 == v);
                            assert(bucket[j as int].0@ == key@ && bucket[j as int].1 == v2);
                        }
                    }
                    assert forall|v2: u64|
                        (exists|j2: int|
                            0 <= j2 < j + 1 && (#[trigger] bucket[j2]).0@ == key@ && bucket[j2].1
                                == v2) implies #[trigger] values@.contains(v2) by {
                        let j2 = choose|j2: int|
                            0 <= j2 < j + 1 && (#[trigger] bucket[j2]).0@ == key@ && bucket[j2].1
                                == v2;
                        if j2 < j {
                            assert(prev_values.contains(v2));
                            let k = choose|k: int|
                                0 <= k < prev_values.len() && prev_values[k] == v2;
                            assert(values@[k] == v2);
                        } else {
                            assert(values@[prev_values.len() as int] == v2);
                        }
                    }
                    assert forall|k1: int, k2: int|
                        0 <= k1 < k2 < values@.len() implies values@[k1] != values@[k2] by {
                        if k2 < prev_values.len() {
                            assert(prev_values[k1] != prev_values[k2]);
                        } else {
                            assert(values@[k2] == v);
                            assert(values@[k1] == prev_values[k1]);
                            if values@[k1] == v {
                                assert(prev_values.contains(v));
                                assert(false);
                            }
                        }
                    }
                }
            } else {
                proof {
                    assert forall|v2: u64| #[trigger]
                        values@.contains(v2) implies exists|j2: int|
                            0 <= j2 < j + 1 && (#[trigger] bucket[j2]).0@ == key@ && bucket[j2].1
                                == v2 by {
                        let j2 = choose|j2: int|
                            0 <= j2 < j && (#[trigger] bucket[j2]).0@ == key@ && bucket[j2].1
                                == v2;
                        assert(0 <= j2 < j + 1 && bucket[j2].0@ == key@ && bucket[j2].1 == v2);
                    }
                    assert forall|v2: u64|
                        (exists|j2: int|
                            0 <= j2 < j + 1 && (#[trigger] bucket[j2]).0@ == key@ && bucket[j2].1
                                == v2) implies #[trigger] values@.contains(v2) by {
                        let j2 = choose|j2: int|
                            0 <= j2 < j + 1 && (#[trigger] bucket[j2]).0@ == key@ && bucket[j2].1
                                == v2;
                        assert(j2 != j);
                        assert(0 <= j2 < j && bucket[j2].0@ == key@ && bucket[j2].1 == v2);
                    }
                }
            }
            j = j + 1;
        }
        proof {
            assert forall|v: u64| #[trigger]
                values@.contains(v) <==> self.contents().contains((key@, v)) by {
                if values@.contains(v) {
                    let j2 = choose|j2: int|
                        0 <= j2 < bucket_len && (#[trigger] self.buckets@[idx as int]@[j2]).0@
                            == key@ && self.buckets@[idx as int]@[j2].1 == v;
                    assert(pair_in_bucket(self.buckets@[idx as int]@, (key@, v)));
                    assert(self.contents().contains((key@, v)));
                }
                if self.contents().contains((key@, v)) {
                    let i = choose|i: int|
                        0 <= i < self.buckets@.len() && pair_in_bucket(
                            #[trigger] self.buckets@[i]@,
                            (key@, v),
                        );
                    let j2 = choose|j2: int|
                        0 <= j2 < self.buckets@[i]@.len() && (#[trigger] self.buckets@[i]@[j2]).0@
                            == key@ && self.buckets@[i]@[j2].1 == v;
                    assert(hash_of(self.buckets@[i]@[j2].0@) as nat % self.buckets@.len() == i);
                    assert(i == idx);
                }
            }
        }
        values
    }
}

/// Pushing a pair onto one shard grows the map's contents by exactly the
/// view of that pair.
proof fn lemma_contents_after_push(
    old_m: ConcurrentMultiMap,
    new_m: ConcurrentMultiMap,
    idx: int,
    p: (Seq<char>, u64),
)
    requires
        0 <= idx < old_m.buckets@.len(),
        new_m.buckets@.len() == old_m.buckets@.len(),
        forall|i: int|
            0 <= i < old_m.buckets@.len() && i != idx ==> (#[trigger] new_m.buckets@[i])@
                == old_m.buckets@[i]@,
        new_m.buckets@[idx]@.len() == old_m.buckets@[idx]@.len() + 1,
        new_m.buckets@[idx]@.subrange(0, old_m.buckets@[idx]@.len() as int) == old_m.buckets@[idx]@,
        new_m.buckets@[idx]@[old_m.buckets@[idx]@.len() as int].0@ == p.0,
        new_m.buckets@[idx]@[old_m.buckets@[idx]@.len() as int].1 == p.1,
    ensures
        new_m.contents() == old_m.contents().insert(p),
{
    let old_bucket = old_m.buckets@[idx]@;
    let new_bucket = new_m.buckets@[idx]@;
    assert forall|j: int| 0 <= j < old_bucket.len() implies new_bucket[j] == old_bucket[j] by {
        assert(old_bucket[j] == new_bucket.subrange(0, old_bucket.len() as int)[j]);
    }
    assert forall|q: (Seq<char>, u64)| #[trigger]
        new_m.contents().contains(q) implies old_m.contents().insert(p).contains(q) by {
        let i = choose|i: int|
            0 <= i < new_m.buckets@.len() && pair_in_bucket(#[trigger] new_m.buckets@[i]@, q);
        if i != idx {
            assert(pair_in_bucket(old_m.buckets@[i]@, q));
        } else {
            let j = choose|j: int|
                0 <= j < new_bucket.len() && (#[trigger] new_bucket[j]).0@ == q.0
                    && new_bucket[j].1 == q.1;
            if j < old_bucket.len() {
                assert(old_bucket[j].0@ == q.0 && old_bucket[j].1 == q.1);
                assert(pair_in_bucket(old_m.buckets@[idx]@, q));
            } else {
                assert(q == p);
            }
        }
    }
    assert forall|q: (Seq<char>, u64)| #[trigger]
        old_m.contents().insert(p).contains(q) implies new_m.contents().contains(q) by {
        if q == p {
            assert((#[trigger] new_bucket[old_bucket.len() as int]).0@ == q.0
                && new_bucket[old_bucket.len() as int].1 == q.1);
            assert(pair_in_bucket(new_m.buckets@[idx]@, q));
        } else {
            let i = choose|i: int|
                0 <= i < old_m.buckets@.len() && pair_in_bucket(#[trigger] old_m.buckets@[i]@, q);
            if i != idx {
                assert(pair_in_bucket(new_m.buckets@[i]@, q));
            } else {
                let j = choose|j: int|
                    0 <= j < old_bucket.len() && (#[trigger] old_bucket[j]).0@ == q.0
                        && old_bucket[j].1 == q.1;
                assert((new_bucket[j]).0@ == q.0 && new_bucket[j].1 == q.1);
                assert(pair_in_bucket(new_m.buckets@[idx]@, q));
            }
        }
    }
    assert(new_m.contents() =~= old_m.contents().insert(p));
}

/// Inserting the same pair twice is the same as inserting it once: the
/// multi-map's insert is idempotent, so a repeated `set(k, v)` leaves `get(k)`
/// unchanged.
pub proof fn lemma_set_idempotent(m: Set<(Seq<char>, u64)>, key: Seq<char>, value: u64)
    ensures
        m.insert((key, value)).insert((key, value)) == m.insert((key, value)),
{
    assert(m.insert((key, value)).insert((key, value)) =~= m.insert((key, value)));
}

/// One insert makes its own pair visible and hides nothing: every pair held
/// before is still held after.  Distinct pairs inserted in any interleaving
/// are therefore all present once every insert has happened.
pub proof fn lemma_set_preserves_pairs(
    m: Set<(Seq<char>, u64)>,
    key: Seq<char>,
    value: u64,
    q: (Seq<char>, u64),
)
    ensures
        m.insert((key, value)).contains((key, value)),
        m.contains(q) ==> m.insert((key, value)).contains(q),
{
}

/// The map contents after inserting each pair of `pairs`, oldest first.
pub open spec fn insert_all(
    m: Set<(Seq<char>, u64)>,
    pairs: Seq<(Seq<char>, u64)>,
) -> Set<(Seq<char>, u64)>
    decreases pairs.len(),
{
    if pairs.len() == 0 {
        m
    } else {
        insert_all(m.insert(pairs[0]), pairs.drop_first())
    }
}

/// However concurrent insertions interleave, they happen in some order, and
/// after any order of `set` calls every inserted pair is present — and so is
/// everything the map held before.
pub proof fn lemma_insert_all_contains(m: Set<(Seq<char>, u64)>, pairs: Seq<(Seq<char>, u64)>)
    ensures
        forall|k: int|
            0 <= k < pairs.len() ==> insert_all(m, pairs).contains(#[trigger] pairs[k]),
        forall|q: (Seq<char>, u64)| m.contains(q) ==> insert_all(m, pairs).contains(q),
    decreases pairs.len(),
{
    if pairs.len() > 0 {
        lemma_insert_all_contains(m.insert(pairs[0]), pairs.drop_first());
        assert forall|k: int|
            0 <= k < pairs.len() implies insert_all(m, pairs).contains(#[trigger] pairs[k]) by {
            if k == 0 {
                assert(m.insert(pairs[0]).contains(pairs[0]));
            } else {
                assert(pairs.drop_first()[k - 1] == pairs[k]);
                assert(insert_all(m.insert(pairs[0]), pairs.drop_first()).contains(
                    pairs.drop_first()[k - 1],
                ));
            }
        }
        assert forall|q: (Seq<char>, u64)|
            m.contains(q) implies insert_all(m, pairs).contains(q) by {
            assert(m.insert(pairs[0]).contains(q));
        }
    }
}

} // verus!
