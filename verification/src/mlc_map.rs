//! A hash-bucketed map built from cells.
//!
//! The map owns an array of buckets; an entry lives in the bucket named by
//! its key's hash modulo the bucket count.  Each entry pairs the key with an
//! inner [`AtomicCell`] holding the value, so a value can be replaced in
//! place without rewriting its bucket.  Lookups hand out handles into the
//! table; mutation needs the table held exclusively.

use crate::cell::arc_clone;
use crate::cell::AtomicCell;
use crate::key::MapKey;
use std::sync::Arc;
use vstd::prelude::*;

verus! {

/// One bucket: the entries whose keys hash here, each an immutable key next
/// to the inner cell that holds its current value.
struct Bucket<K, V> {
    pair_vec: Vec<(K, AtomicCell<V>)>,
}

impl<K: MapKey, V> Bucket<K, V> {
    spec fn entries(&self) -> Seq<(K, AtomicCell<V>)> {
        self.pair_vec@
    }

    /// Distinct keys, and every inner cell well-formed.
    spec fn wf(&self) -> bool {
        &&& forall|i: int, j: int|
            0 <= i < j < self.entries().len() ==> (#[trigger] self.entries()[i]).0@ != (
            #[trigger] self.entries()[j]).0@
        &&& forall|i: int|
            0 <= i < self.entries().len() ==> (#[trigger] self.entries()[i]).1.wf()
    }

    /// Some entry of this bucket carries a key with abstract value `kv`.
    spec fn has_key(&self, kv: K::V) -> bool {
        exists|i: int| 0 <= i < self.entries().len() && (#[trigger] self.entries()[i]).0@ == kv
    }

    /// The position of `kv`'s entry; meaningful only when `has_key` holds,
    /// and then unique, the keys being distinct.
    spec fn idx_of(&self, kv: K::V) -> int {
        choose|i: int| 0 <= i < self.entries().len() && (#[trigger] self.entries()[i]).0@ == kv
    }

    /// The handle currently held for `kv`; meaningful only under `has_key`.
    spec fn val_of(&self, kv: K::V) -> Arc<V> {
        self.entries()[self.idx_of(kv)].1.value()
    }

    /// In a well-formed bucket the entry of a present key is unique.
    proof fn lemma_idx_unique(&self, kv: K::V, i: int)
        requires
            self.wf(),
            0 <= i < self.entries().len(),
            self.entries()[i].0@ == kv,
        ensures
            self.has_key(kv),
            self.idx_of(kv) == i,
    {
        assert(self.has_key(kv));
        let j = self.idx_of(kv);
        if i < j {
            assert(self.entries()[i].0@ != self.entries()[j].0@);
        } else if j < i {
            assert(self.entries()[j].0@ != self.entries()[i].0@);
        }
    }

    fn new() -> (r: Self)
        ensures
            r.wf(),
            r.entries().len() == 0,
    {
        Bucket { pair_vec: Vec::new() }
    }

    /// The whole entry list, for a walker to snapshot.
    fn get_full(&self) -> (r: &Vec<(K, AtomicCell<V>)>)
        ensures
            r@ == self.entries(),
    {
        &self.pair_vec
    }

    /// The position of `key`'s entry, or nothing when no entry carries it.
    fn index_of(&self, key: &K) -> (r: Option<usize>)
        requires
            self.wf(),
        ensures
            self.has_key(key@) ==> (r matches Some(i) && i == self.idx_of(key@)),
            !self.has_key(key@) ==> r is None,
    {
        let mut i: usize = 0;
        while i < self.pair_vec.len()
            invariant
                self.wf(),
                i <= self.entries().len(),
                forall|j: int| 0 <= j < i ==> (#[trigger] self.entries()[j]).0@ != key@,
            decreases self.entries().len() - i,
        {
            if self.pair_vec[i].0.key_eq(key) {
                proof {
                    self.lemma_idx_unique(key@, i as int);
                }
                return Some(i);
            }
            i = i + 1;
        }
        None
    }

    /// A handle on the entry for `key`: the key and its inner value cell.
    fn get_handle(&self, key: &K) -> (r: Option<&(K, AtomicCell<V>)>)
        requires
            self.wf(),
        ensures
            self.has_key(key@) ==> (r matches Some(e) && e.0@ == key@ && e.1.wf() && e.1.value()
                == self.val_of(key@)),
            !self.has_key(key@) ==> r is None,
    {
        match self.index_of(key) {
            Some(i) => Some(&self.pair_vec[i]),
            None => None,
        }
    }

    /// A handle to the current value for `key`, or nothing when absent.
    fn get(&self, key: &K) -> (r: Option<Arc<V>>)
        requires
            self.wf(),
        ensures
            self.has_key(key@) ==> (r matches Some(a) && a == self.val_of(key@)),
            !self.has_key(key@) ==> r is None,
    {
        match self.get_handle(key) {
            Some(pair) => Some(pair.1.load()),
            None => None,
        }
    }
}

impl<K: MapKey, V> Bucket<K, V> {
    /// What a mutation may not touch: every key other than `kv` stays, with
    /// the handle it had.
    spec fn others_kept(&self, prior: &Self, kv: K::V) -> bool {
        forall|w: K::V|
            w != kv ==> (#[trigger] self.has_key(w)) == prior.has_key(w) && (prior.has_key(w)
                ==> self.val_of(w) == prior.val_of(w))
    }

    /// After replacing the cell state at one position, every other key keeps
    /// its entry and handle.
    proof fn lemma_update_keeps_others(&self, prior: &Self, at: int)
        requires
            prior.wf(),
            0 <= at < prior.entries().len(),
            self.entries().len() == prior.entries().len(),
            forall|j: int|
                0 <= j < prior.entries().len() && j != at ==> self.entries()[j] == prior.entries()[
                    j
                ],
            self.entries()[at].0@ == prior.entries()[at].0@,
            self.wf(),
        ensures
            self.others_kept(prior, prior.entries()[at].0@),
    {
        let kv = prior.entries()[at].0@;
        assert forall|w: K::V| w != kv implies (#[trigger] self.has_key(w)) == prior.has_key(w) && (
        prior.has_key(w) ==> self.val_of(w) == prior.val_of(w)) by {
            if prior.has_key(w) {
                let j = prior.idx_of(w);
                assert(self.entries()[j].0@ == w);
                self.lemma_idx_unique(w, j);
                prior.lemma_idx_unique(w, j);
            }
            if self.has_key(w) {
                let j = self.idx_of(w);
                assert(prior.entries()[j].0@ == w);
                prior.lemma_idx_unique(w, j);
            }
        }
    }

    /// Replaces the value for `key` in place through its entry's inner cell;
    /// reports nothing when no entry carries the key, and then changes
    /// nothing.
    fn edit(&mut self, key: &K, value: V) -> (r: Option<()>)
        requires
            old(self).wf(),
        ensures
            final(self).wf(),
            final(self).entries().len() == old(self).entries().len(),
            old(self).has_key(key@) ==> (r is Some && final(self).has_key(key@)
                && final(self).val_of(key@) == value
                && final(self).others_kept(old(self), key@)),
            !old(self).has_key(key@) ==> r is None && *final(self) == *old(self),
    {
        match self.index_of(key) {
            Some(i) => {
                let pair = &mut self.pair_vec[i];
                pair.1.store(value);
                proof {
                    self.lemma_idx_unique(key@, i as int);
                    self.lemma_update_keeps_others(old(self), i as int);
                }
                Some(())
            },
            None => None,
        }
    }

    /// After appending an entry with a fresh key, every other key keeps its
    /// entry and handle, and the new key is present with the new handle.
    proof fn lemma_push_keeps_others(&self, prior: &Self, kv: K::V)
        requires
            prior.wf(),
            !prior.has_key(kv),
            self.entries().len() == prior.entries().len() + 1,
            forall|j: int|
                0 <= j < prior.entries().len() ==> self.entries()[j] == prior.entries()[j],
            self.entries().last().0@ == kv,
            self.entries().last().1.wf(),
        ensures
            self.wf(),
            self.has_key(kv),
            self.val_of(kv) == self.entries().last().1.value(),
            self.others_kept(prior, kv),
    {
        let n = prior.entries().len() as int;
        assert forall|i: int, j: int|
            0 <= i < j < self.entries().len() implies (#[trigger] self.entries()[i]).0@ != (
        #[trigger] self.entries()[j]).0@ by {
            if j < n {
            } else {
                assert(self.entries()[j].0@ == kv);
                if self.entries()[i].0@ == kv {
                    assert(prior.has_key(kv));
                }
            }
        }
        self.lemma_idx_unique(kv, n);
        assert forall|w: K::V| w != kv implies (#[trigger] self.has_key(w)) == prior.has_key(w) && (
        prior.has_key(w) ==> self.val_of(w) == prior.val_of(w)) by {
            if prior.has_key(w) {
                let j = prior.idx_of(w);
                assert(self.entries()[j].0@ == w);
                self.lemma_idx_unique(w, j);
                prior.lemma_idx_unique(w, j);
            }
            if self.has_key(w) {
                let j = self.idx_of(w);
                assert(j != n);
                assert(prior.entries()[j].0@ == w);
                prior.lemma_idx_unique(w, j);
            }
        }
    }

    /// Stores `value` for `key`: in place through the entry's inner cell
    /// when the key is present, and otherwise by appending a fresh entry
    /// whose inner cell starts at `value`.
    fn insert(&mut self, key: K, value: V)
        requires
            old(self).wf(),
        ensures
            final(self).wf(),
            final(self).has_key(key@),
            final(self).val_of(key@) == value,
            final(self).others_kept(old(self), key@),
            old(self).has_key(key@) ==> final(self).entries().len() == old(self).entries().len(),
            !old(self).has_key(key@) ==> final(self).entries().len() == old(self).entries().len()
                + 1 && final(self).entries().last().0@ == key@,
    {
        match self.index_of(&key) {
            Some(i) => {
                let pair = &mut self.pair_vec[i];
                pair.1.store(value);
                proof {
                    self.lemma_idx_unique(key@, i as int);
                    self.lemma_update_keeps_others(old(self), i as int);
                }
            },
            None => {
                let ghost kv = key@;
                self.pair_vec.push((key, AtomicCell::new(value)));
                proof {
                    self.lemma_push_keeps_others(old(self), kv);
                }
            },
        }
    }

    /// Appends a ready-made entry; the key must be fresh to this bucket.
    fn insert_raw(&mut self, to_insert: (K, AtomicCell<V>))
        requires
            old(self).wf(),
            !old(self).has_key(to_insert.0@),
            to_insert.1.wf(),
        ensures
            final(self).wf(),
            final(self).has_key(to_insert.0@),
            final(self).val_of(to_insert.0@) == to_insert.1.value(),
            final(self).others_kept(old(self), to_insert.0@),
            final(self).entries().len() == old(self).entries().len() + 1,
    {
        let ghost kv = to_insert.0@;
        self.pair_vec.push(to_insert);
        proof {
            self.lemma_push_keeps_others(old(self), kv);
        }
    }

    /// Drops the entry for `key`, reporting whether one was there.
    fn remove(&mut self, key: &K) -> (r: Option<()>)
        requires
            old(self).wf(),
        ensures
            final(self).wf(),
            !final(self).has_key(key@),
            old(self).has_key(key@) ==> r is Some
                && final(self).entries().len() == old(self).entries().len() - 1,
            !old(self).has_key(key@) ==> r is None && *final(self) == *old(self),
            final(self).others_kept(old(self), key@),
    {
        match self.index_of(key) {
            Some(i) => {
                self.pair_vec.remove(i);
                proof {
                    let prior = old(self);
                    prior.entries().remove_ensures(i as int);
                    assert forall|i2: int, j2: int|
                        0 <= i2 < j2 < self.entries().len() implies (
                    #[trigger] self.entries()[i2]).0@ != (#[trigger] self.entries()[j2]).0@ by {
                        let pi = if i2 < i as int {
                            i2
                        } else {
                            i2 + 1
                        };
                        let pj = if j2 < i as int {
                            j2
                        } else {
                            j2 + 1
                        };
                        assert(prior.entries()[pi] == self.entries()[i2]);
                        assert(prior.entries()[pj] == self.entries()[j2]);
                    }
                    assert forall|j: int|
                        0 <= j < self.entries().len() implies !(self.entries()[j].0@
                        == key@) by {
                        let pj = if j < i as int {
                            j
                        } else {
                            j + 1
                        };
                        assert(prior.entries()[pj] == self.entries()[j]);
                        if prior.entries()[pj].0@ == key@ {
                            prior.lemma_idx_unique(key@, pj);
                        }
                    }
                    assert forall|w: K::V| w != key@ implies (#[trigger] self.has_key(w))
                        == prior.has_key(w) && (prior.has_key(w) ==> self.val_of(w)
                        == prior.val_of(w)) by {
                        if prior.has_key(w) {
                            let pj = prior.idx_of(w);
                            prior.lemma_idx_unique(w, pj);
                            let j = if pj < i as int {
                                pj
                            } else {
                                pj - 1
                            };
                            assert(pj != i as int);
                            assert(self.entries()[j] == prior.entries()[pj]);
                            self.lemma_idx_unique(w, j);
                        }
                        if self.has_key(w) {
                            let j = self.idx_of(w);
                            let pj = if j < i as int {
                                j
                            } else {
                                j + 1
                            };
                            assert(prior.entries()[pj] == self.entries()[j]);
                            prior.lemma_idx_unique(w, pj);
                        }
                    }
                    assert(self.wf());
                    assert(self.others_kept(prior, key@));
                }
                Some(())
            },
            None => None,
        }
    }
}

impl<K: MapKey, V: Copy> Bucket<K, V> {
    /// A copy of the current value for `key`, or nothing when absent.
    fn get_owned(&self, key: &K) -> (r: Option<V>)
        requires
            self.wf(),
        ensures
            self.has_key(key@) ==> (r matches Some(v) && v == self.val_of(key@)),
            !self.has_key(key@) ==> r is None,
    {
        if let Some(arcy_boi) = self.get(key) {
            return Some(*arcy_boi);
        }
        None
    }
}

/// The hash-bucketed map.  The creator may restructure the table (insert and
/// remove entries); an editor made by `new_editor` may only read and edit
/// values in place.
pub struct MlcMap<K: MapKey, V> {
    is_creator: bool,
    bucket_vec: Vec<Bucket<K, V>>,
}

impl<K: MapKey, V> MlcMap<K, V> {
    /// How many buckets the table has.
    pub closed spec fn num_buckets(&self) -> nat {
        self.bucket_vec@.len()
    }

    /// Whether this handle may restructure the table.
    pub closed spec fn creator(&self) -> bool {
        self.is_creator
    }

    /// The bucket a key with abstract value `kv` belongs to.
    closed spec fn bucket_of(&self, kv: K::V) -> int {
        (K::hash_of(kv) % (self.bucket_vec@.len() as u64)) as int
    }

    /// Whether the map holds an entry for `kv`.
    pub closed spec fn contains_key(&self, kv: K::V) -> bool {
        self.bucket_vec@.len() > 0 && self.bucket_vec@[self.bucket_of(kv)].has_key(kv)
    }

    /// The handle currently held for `kv`; meaningful only under
    /// `contains_key`.
    pub closed spec fn spec_get(&self, kv: K::V) -> Arc<V> {
        self.bucket_vec@[self.bucket_of(kv)].val_of(kv)
    }

    /// Every bucket is well-formed and every entry sits in the bucket its
    /// key hashes to.
    pub closed spec fn wf(&self) -> bool {
        &&& forall|b: int| 0 <= b < self.bucket_vec@.len() ==> (#[trigger] self.bucket_vec@[b]).wf()
        &&& forall|b: int, j: int|
            0 <= b < self.bucket_vec@.len() && 0 <= j < self.bucket_vec@[b].entries().len()
                ==> self.bucket_of((#[trigger] self.bucket_vec@[b].entries()[j]).0@) == b
    }

    /// What a mutation may not touch: every key other than `kv` stays, with
    /// the handle it had.
    pub closed spec fn others_kept(&self, prior: &Self, kv: K::V) -> bool {
        forall|w: K::V|
            w != kv ==> (#[trigger] self.contains_key(w)) == prior.contains_key(w) && (
            prior.contains_key(w) ==> self.spec_get(w) == prior.spec_get(w))
    }

    /// Lifts a single-bucket mutation to the whole map: when only the bucket
    /// `kv` hashes to changed, and that bucket kept all other keys, the map
    /// is well-formed again and kept all keys other than `kv`.
    proof fn lemma_bucket_mutation(&self, prior: &Self, spot: int, kv: K::V)
        requires
            prior.wf(),
            self.bucket_vec@.len() == prior.bucket_vec@.len(),
            0 <= spot < prior.bucket_vec@.len(),
            spot == prior.bucket_of(kv),
            forall|b: int|
                0 <= b < prior.bucket_vec@.len() && b != spot ==> self.bucket_vec@[b]
                    == prior.bucket_vec@[b],
            self.bucket_vec@[spot].wf(),
            self.bucket_vec@[spot].others_kept(&prior.bucket_vec@[spot], kv),
        ensures
            self.wf(),
            self.others_kept(prior, kv),
            self.contains_key(kv) == self.bucket_vec@[spot].has_key(kv),
            self.bucket_vec@[spot].has_key(kv) ==> self.spec_get(kv) == self.bucket_vec@[
                spot
            ].val_of(kv),
    {
        let n = prior.bucket_vec@.len();
        assert forall|b: int, j: int|
            0 <= b < self.bucket_vec@.len() && 0 <= j < self.bucket_vec@[b].entries().len() implies
        self.bucket_of((#[trigger] self.bucket_vec@[b].entries()[j]).0@) == b by {
            let w = self.bucket_vec@[b].entries()[j].0@;
            if b != spot {
                assert(prior.bucket_of(w) == b);
            } else {
                self.bucket_vec@[spot].lemma_idx_unique(w, j);
                if w != kv {
                    assert(prior.bucket_vec@[spot].has_key(w));
                    let pj = prior.bucket_vec@[spot].idx_of(w);
                    assert(prior.bucket_of(w) == spot);
                }
            }
        }
        assert forall|w: K::V| w != kv implies (#[trigger] self.contains_key(w))
            == prior.contains_key(w) && (prior.contains_key(w) ==> self.spec_get(w)
            == prior.spec_get(w)) by {
            let bw = prior.bucket_of(w);
            assert(self.bucket_of(w) == bw);
            vstd::std_specs::vec::axiom_spec_len(&prior.bucket_vec);
            assert(0 < (n as u64));
            assert(0 <= bw < n);
            if bw != spot {
                assert(self.bucket_vec@[bw] == prior.bucket_vec@[bw]);
            } else {
                assert(self.bucket_vec@[spot].has_key(w) == prior.bucket_vec@[spot].has_key(w));
                if prior.bucket_vec@[spot].has_key(w) {
                    assert(self.bucket_vec@[spot].val_of(w) == prior.bucket_vec@[spot].val_of(w));
                }
            }
        }
    }

    /// A map with no buckets at all; nothing can be inserted until a resize
    /// gives it a bucket.
    pub fn new() -> (r: Self)
        ensures
            r.wf(),
            r.creator(),
            r.num_buckets() == 0,
    {
        MlcMap { is_creator: true, bucket_vec: Vec::new() }
    }

    /// A map with `capacity` empty buckets.
    pub fn new_with_capacity(capacity: usize) -> (r: Self)
        ensures
            r.wf(),
            r.creator(),
            r.num_buckets() == capacity,
            forall|kv: K::V| !r.contains_key(kv),
    {
        let mut vector: Vec<Bucket<K, V>> = Vec::new();
        let mut i: usize = 0;
        while i < capacity
            invariant
                i <= capacity,
                vector@.len() == i,
                forall|b: int|
                    0 <= b < i ==> (#[trigger] vector@[b]).wf() && vector@[b].entries().len() == 0,
            decreases capacity - i,
        {
            vector.push(Bucket::new());
            i = i + 1;
        }
        MlcMap { is_creator: true, bucket_vec: vector }
    }

    /// The bucket index `key` belongs to, or nothing when the table has no
    /// buckets.
    fn spot_of(&self, key: &K) -> (r: Option<usize>)
        ensures
            self.num_buckets() == 0 ==> r is None,
            self.num_buckets() > 0 ==> (r matches Some(s) && s as int == self.bucket_of(key@)
                && s < self.num_buckets()),
    {
        let len = self.bucket_vec.len();
        let hash = key.key_hash();
        if len == 0 {
            None
        } else {
            Some((hash % (len as u64)) as usize)
        }
    }

    /// A handle on the entry for `key`: the immutable key and the inner cell
    /// that holds its value, or nothing when the key is absent.  Loads may go
    /// through the handle; a store needs the map itself.
    pub fn get_handle(&self, key: &K) -> (r: Option<&(K, AtomicCell<V>)>)
        requires
            self.wf(),
        ensures
            self.contains_key(key@) ==> (r matches Some(e) && e.0@ == key@ && e.1.wf()
                && e.1.value() == self.spec_get(key@)),
            !self.contains_key(key@) ==> r is None,
    {
        match self.spot_of(key) {
            Some(spot) => self.bucket_vec[spot].get_handle(key),
            None => None,
        }
    }

    /// A handle to the current value for `key`, or nothing when absent.
    pub fn get(&self, key: &K) -> (r: Option<Arc<V>>)
        requires
            self.wf(),
        ensures
            self.contains_key(key@) ==> (r matches Some(a) && a == self.spec_get(key@)),
            !self.contains_key(key@) ==> r is None,
    {
        match self.get_handle(key) {
            Some(pair) => Some(pair.1.load()),
            None => None,
        }
    }

    /// Replaces the value for `key` in place, through the entry's inner
    /// cell; reports nothing and changes nothing when the key is absent.
    pub fn edit(&mut self, key: &K, value: V) -> (r: Option<()>)
        requires
            old(self).wf(),
        ensures
            final(self).wf(),
            final(self).creator() == old(self).creator(),
            final(self).num_buckets() == old(self).num_buckets(),
            final(self).others_kept(old(self), key@),
            final(self).contains_key(key@) == old(self).contains_key(key@),
            old(self).contains_key(key@) ==> r is Some && final(self).spec_get(key@) == value,
            !old(self).contains_key(key@) ==> r is None,
    {
        match self.spot_of(key) {
            Some(spot) => {
                let bucket = &mut self.bucket_vec[spot];
                let r = bucket.edit(key, value);
                proof {
                    self.lemma_bucket_mutation(old(self), spot as int, key@);
                }
                r
            },
            None => None,
        }
    }

    /// Stores `value` for `key`: in place when the key is present, and
    /// otherwise by a fresh entry in the key's bucket.  Only the creator may
    /// insert.  Reports nothing when the table has no buckets.
    pub fn insert(&mut self, key: K, value: V) -> (r: Option<()>)
        requires
            old(self).wf(),
            old(self).creator(),
        ensures
            final(self).wf(),
            final(self).creator(),
            final(self).num_buckets() == old(self).num_buckets(),
            old(self).num_buckets() == 0 ==> r is None && *final(self) == *old(self),
            old(self).num_buckets() > 0 ==> (r is Some && final(self).contains_key(key@)
                && final(self).spec_get(key@) == value
                && final(self).others_kept(old(self), key@)),
    {
        let ghost kv = key@;
        match self.spot_of(&key) {
            Some(spot) => {
                let bucket = &mut self.bucket_vec[spot];
                bucket.insert(key, value);
                proof {
                    self.lemma_bucket_mutation(old(self), spot as int, kv);
                }
                Some(())
            },
            None => None,
        }
    }

    /// Appends a ready-made entry to its key's bucket; the key must be
    /// absent.  Only the creator may insert.
    fn insert_raw(&mut self, to_insert: (K, AtomicCell<V>)) -> (r: Option<()>)
        requires
            old(self).wf(),
            old(self).creator(),
            !old(self).contains_key(to_insert.0@),
            to_insert.1.wf(),
        ensures
            final(self).wf(),
            final(self).creator(),
            final(self).num_buckets() == old(self).num_buckets(),
            old(self).num_buckets() == 0 ==> r is None && *final(self) == *old(self),
            old(self).num_buckets() > 0 ==> (r is Some && final(self).contains_key(to_insert.0@)
                && final(self).spec_get(to_insert.0@) == to_insert.1.value()
                && final(self).others_kept(old(self), to_insert.0@)),
    {
        let ghost kv = to_insert.0@;
        let ghost val = to_insert.1.value();
        match self.spot_of(&to_insert.0) {
            Some(spot) => {
                let bucket = &mut self.bucket_vec[spot];
                bucket.insert_raw(to_insert);
                proof {
                    self.lemma_bucket_mutation(old(self), spot as int, kv);
                }
                Some(())
            },
            None => None,
        }
    }

    /// Drops the entry for `key`, reporting whether one was there.  Only the
    /// creator may remove.
    pub fn remove(&mut self, key: &K) -> (r: Option<()>)
        requires
            old(self).wf(),
            old(self).creator(),
        ensures
            final(self).wf(),
            final(self).creator(),
            final(self).num_buckets() == old(self).num_buckets(),
            !final(self).contains_key(key@),
            final(self).others_kept(old(self), key@),
            r is Some <==> old(self).contains_key(key@),
    {
        match self.spot_of(key) {
            Some(spot) => {
                let bucket = &mut self.bucket_vec[spot];
                let r = bucket.remove(key);
                proof {
                    self.lemma_bucket_mutation(old(self), spot as int, key@);
                }
                r
            },
            None => None,
        }
    }
}

/// The entries of the first `b` buckets, bucket by bucket, each bucket's
/// entries in order.
spec fn flat_prefix<K: MapKey, V>(bs: Seq<Bucket<K, V>>, b: int) -> Seq<(K, AtomicCell<V>)>
    decreases b,
{
    if b <= 0 {
        Seq::empty()
    } else {
        flat_prefix(bs, b - 1) + bs[b - 1].entries()
    }
}

/// All entries of a bucket table, in walking order.
spec fn flat<K: MapKey, V>(bs: Seq<Bucket<K, V>>) -> Seq<(K, AtomicCell<V>)> {
    flat_prefix(bs, bs.len() as int)
}

/// Longer prefixes of the walk are no shorter.
proof fn lemma_prefix_len_mono<K: MapKey, V>(bs: Seq<Bucket<K, V>>, b1: int, b2: int)
    requires
        b1 <= b2,
    ensures
        flat_prefix(bs, b1).len() <= flat_prefix(bs, b2).len(),
    decreases b2 - b1,
{
    if b1 < b2 {
        lemma_prefix_len_mono(bs, b1, b2 - 1);
    }
}

/// Where entry `j` of bucket `c` stands in the walk of the first `b`
/// buckets.
proof fn lemma_flat_at<K: MapKey, V>(bs: Seq<Bucket<K, V>>, b: int, c: int, j: int)
    requires
        0 <= c < b <= bs.len(),
        0 <= j < bs[c].entries().len(),
    ensures
        flat_prefix(bs, c).len() + j < flat_prefix(bs, b).len(),
        flat_prefix(bs, b)[flat_prefix(bs, c).len() + j] == bs[c].entries()[j],
    decreases b,
{
    if b == c + 1 {
    } else {
        lemma_flat_at(bs, b - 1, c, j);
    }
}

/// Which bucket the walk position `p` falls in, within the first `b`
/// buckets.
proof fn flat_locate<K: MapKey, V>(bs: Seq<Bucket<K, V>>, b: int, p: int) -> (c: int)
    requires
        b <= bs.len(),
        0 <= p < flat_prefix(bs, b).len(),
    ensures
        0 <= c < b,
        flat_prefix(bs, c).len() <= p < flat_prefix(bs, c).len() + bs[c].entries().len(),
        flat_prefix(bs, b)[p] == bs[c].entries()[p - flat_prefix(bs, c).len()],
    decreases b,
{
    if p >= flat_prefix(bs, b - 1).len() {
        b - 1
    } else {
        let c = flat_locate(bs, b - 1, p);
        lemma_flat_at(bs, b, c, p - flat_prefix(bs, c).len());
        c
    }
}

/// A lazy walker over a snapshot of the bucket table.  It visits buckets in
/// table order and each bucket's entries in entry order; the bucket list is
/// fixed at creation, each bucket's entry list when the walk reaches it.
pub struct MapIter<'a, K: MapKey, V> {
    snap: &'a Vec<Bucket<K, V>>,
    curr_bucket: Option<&'a Vec<(K, AtomicCell<V>)>>,
    curr_map_index: usize,
    curr_b_index: usize,
}

impl<'a, K: MapKey, V> MapIter<'a, K, V> {
    /// Every entry this walk will visit, in order.
    pub closed spec fn entries(&self) -> Seq<(K, AtomicCell<V>)> {
        flat(self.snap@)
    }

    /// How many entries the walk has handed out.
    pub closed spec fn pos(&self) -> int {
        match self.curr_bucket {
            Some(bv) => flat_prefix(self.snap@, self.curr_map_index - 1).len()
                + self.curr_b_index,
            None => flat_prefix(self.snap@, self.curr_map_index as int).len() as int,
        }
    }

    pub closed spec fn wf_iter(&self) -> bool {
        match self.curr_bucket {
            Some(bv) => 1 <= self.curr_map_index <= self.snap@.len() && bv@ == self.snap@[
                self.curr_map_index - 1
            ].entries() && self.curr_b_index <= bv@.len(),
            None => self.curr_b_index == 0 && self.curr_map_index <= self.snap@.len(),
        }
    }

    /// The position never passes the end of the walk.
    pub proof fn lemma_pos_in_range(&self)
        requires
            self.wf_iter(),
        ensures
            0 <= self.pos() <= self.entries().len(),
    {
        match self.curr_bucket {
            Some(bv) => {
                let m = self.curr_map_index - 1;
                assert(flat_prefix(self.snap@, m + 1) == flat_prefix(self.snap@, m) + self.snap@[
                    m
                ].entries());
                lemma_prefix_len_mono(self.snap@, m + 1, self.snap@.len() as int);
                lemma_prefix_len_mono(self.snap@, 0, m);
            },
            None => {
                lemma_prefix_len_mono(
                    self.snap@,
                    self.curr_map_index as int,
                    self.snap@.len() as int,
                );
                lemma_prefix_len_mono(self.snap@, 0, self.curr_map_index as int);
            },
        }
    }

    /// The next entry of the walk, or nothing once every entry from the
    /// snapshot has been handed out.
    pub fn next(&mut self) -> (r: Option<&'a (K, AtomicCell<V>)>)
        requires
            old(self).wf_iter(),
        ensures
            final(self).wf_iter(),
            final(self).entries() == old(self).entries(),
            old(self).pos() < old(self).entries().len() ==> (r matches Some(e) && *e == old(
                self,
            ).entries()[old(self).pos()] && final(self).pos() == old(self).pos() + 1),
            old(self).pos() >= old(self).entries().len() ==> r is None && final(self).pos() == old(
                self,
            ).pos(),
    {
        proof {
            old(self).lemma_pos_in_range();
        }
        loop
            invariant
                self.wf_iter(),
                self.snap == old(self).snap,
                self.pos() == old(self).pos(),
            decreases (self.snap@.len() - self.curr_map_index) * 2 + (
            if self.curr_bucket is Some {
                1int
            } else {
                0int
            }),
        {
            if self.curr_bucket.is_none() {
                if self.curr_map_index < self.snap.len() {
                    self.curr_bucket = Some(self.snap[self.curr_map_index].get_full());
                    proof {
                        assert(flat_prefix(self.snap@, self.curr_map_index + 1) == flat_prefix(
                            self.snap@,
                            self.curr_map_index as int,
                        ) + self.snap@[self.curr_map_index as int].entries());
                    }
                    self.curr_map_index = self.curr_map_index + 1;
                } else {
                    proof {
                        self.lemma_pos_in_range();
                    }
                    return None;
                }
            }
            if let Some(vector) = self.curr_bucket {
                if self.curr_b_index < vector.len() {
                    let pair = &vector[self.curr_b_index];
                    proof {
                        let m = self.curr_map_index - 1;
                        lemma_flat_at(
                            self.snap@,
                            self.snap@.len() as int,
                            m,
                            self.curr_b_index as int,
                        );
                    }
                    self.curr_b_index = self.curr_b_index + 1;
                    return Some(pair);
                } else {
                    proof {
                        let m = self.curr_map_index - 1;
                        assert(flat_prefix(self.snap@, m + 1) == flat_prefix(self.snap@, m)
                            + self.snap@[m].entries());
                    }
                    self.curr_bucket = None;
                    self.curr_b_index = 0;
                }
            }
        }
    }
}

impl<K: MapKey, V> MlcMap<K, V> {
    /// Every entry of the table, in the order a walker visits them.
    pub closed spec fn entries_flat(&self) -> Seq<(K, AtomicCell<V>)> {
        flat(self.bucket_vec@)
    }

    /// A walker over the current table.
    pub fn get_iter(&self) -> (it: MapIter<'_, K, V>)
        ensures
            it.wf_iter(),
            it.pos() == 0,
            it.entries() == self.entries_flat(),
    {
        MapIter { snap: &self.bucket_vec, curr_bucket: None, curr_map_index: 0, curr_b_index: 0 }
    }

    /// A walk of a well-formed table hands every key out at most once: the
    /// entries it visits carry pairwise distinct keys.
    pub proof fn lemma_iter_keys_distinct(&self)
        requires
            self.wf(),
        ensures
            forall|p: int, q: int|
                0 <= p < q < self.entries_flat().len() ==> (#[trigger] self.entries_flat()[p]).0@
                    != (#[trigger] self.entries_flat()[q]).0@,
    {
        let bs = self.bucket_vec@;
        assert forall|p: int, q: int|
            0 <= p < q < self.entries_flat().len() implies (#[trigger] self.entries_flat()[p]).0@
            != (#[trigger] self.entries_flat()[q]).0@ by {
            let cp = flat_locate(bs, bs.len() as int, p);
            let cq = flat_locate(bs, bs.len() as int, q);
            let jp = p - flat_prefix(bs, cp).len();
            let jq = q - flat_prefix(bs, cq).len();
            if cp == cq {
                assert(jp != jq);
            } else {
                let wp = bs[cp].entries()[jp].0@;
                let wq = bs[cq].entries()[jq].0@;
                assert(self.bucket_of(wp) == cp);
                assert(self.bucket_of(wq) == cq);
                if cp < cq {
                    lemma_prefix_len_mono(bs, cp + 1, cq);
                } else {
                    lemma_prefix_len_mono(bs, cq + 1, cp);
                }
            }
        }
    }
}

/// Some bucket of the list holds an entry for `kv`.
spec fn buckets_have<K: MapKey, V>(bs: Seq<Bucket<K, V>>, kv: K::V) -> bool {
    exists|b: int| 0 <= b < bs.len() && (#[trigger] bs[b]).has_key(kv)
}

impl<K: MapKey, V> MlcMap<K, V> {
    /// During a rehash: every entry still waiting in the old buckets `bs`
    /// belongs to the prior map with its prior value, is well-formed, and has
    /// not been placed in the new table yet.
    spec fn rem_entries_ok(&self, prior: &Self, bs: Seq<Bucket<K, V>>) -> bool {
        forall|b: int, j: int|
            0 <= b < bs.len() && 0 <= j < bs[b].entries().len() ==> (
            #[trigger] prior.contains_key(bs[b].entries()[j].0@)) && bs[b].entries()[j].1.value()
                == prior.spec_get(bs[b].entries()[j].0@) && !self.contains_key(
                bs[b].entries()[j].0@,
            ) && bs[b].entries()[j].1.wf()
    }

    /// During a rehash: the keys still waiting in the old buckets are
    /// pairwise distinct.
    spec fn rem_distinct(bs: Seq<Bucket<K, V>>) -> bool {
        forall|b: int, j: int, b2: int, j2: int|
            #![trigger bs[b].entries()[j], bs[b2].entries()[j2]]
            0 <= b < bs.len() && 0 <= j < bs[b].entries().len() && 0 <= b2 < bs.len() && 0 <= j2
                < bs[b2].entries().len() && (b != b2 || j != j2) ==> bs[b].entries()[j].0@
                != bs[b2].entries()[j2].0@
    }

    /// During a rehash: every prior key is either already in the new table or
    /// still waiting in the old buckets.
    spec fn rehash_covered(&self, prior: &Self, bs: Seq<Bucket<K, V>>) -> bool {
        forall|kv: K::V|
            #[trigger] prior.contains_key(kv) ==> self.contains_key(kv) || buckets_have(bs, kv)
    }

    /// During a rehash: the new table holds only prior keys, with their prior
    /// values.
    spec fn rehash_faithful(&self, prior: &Self) -> bool {
        forall|kv: K::V|
            #[trigger] self.contains_key(kv) ==> prior.contains_key(kv) && self.spec_get(kv)
                == prior.spec_get(kv)
    }

    /// Doubles the bucket count (a table of no buckets grows to one) and
    /// rehashes every entry into its new bucket.  Every key resolves to the
    /// same value handle afterwards.  The table must be held exclusively.
    pub fn resize(&mut self) -> (r: Option<()>)
        requires
            old(self).wf(),
            old(self).num_buckets() * 2 <= usize::MAX,
        ensures
            final(self).wf(),
            final(self).creator() == old(self).creator(),
            r is Some,
            old(self).num_buckets() == 0 ==> final(self).num_buckets() == 1,
            old(self).num_buckets() > 0 ==> final(self).num_buckets() == 2 * old(
                self,
            ).num_buckets(),
            forall|kv: K::V|
                #![trigger final(self).contains_key(kv)]
                #![trigger old(self).contains_key(kv)]
                final(self).contains_key(kv) == old(self).contains_key(kv) && (old(
                    self,
                ).contains_key(kv) ==> final(self).spec_get(kv) == old(self).spec_get(kv)),
    {
        let ghost prior = *old(self);
        let len = self.bucket_vec.len();
        let new_len = if len == 0 {
            1
        } else {
            len * 2
        };
        let mut new_bucket_vec: Vec<Bucket<K, V>> = Vec::new();
        let mut i: usize = 0;
        while i < new_len
            invariant
                i <= new_len,
                new_bucket_vec@.len() == i,
                forall|b: int|
                    0 <= b < i ==> (#[trigger] new_bucket_vec@[b]).wf()
                        && new_bucket_vec@[b].entries().len() == 0,
            decreases new_len - i,
        {
            new_bucket_vec.push(Bucket::new());
            i = i + 1;
        }
        core::mem::swap(&mut self.bucket_vec, &mut new_bucket_vec);
        // From here `new_bucket_vec` holds the superseded table, which is
        // drained bucket by bucket into the fresh one now in place.
        proof {
            assert forall|kv: K::V| !self.contains_key(kv) by {}
            assert forall|b: int, j: int, b2: int, j2: int|
                #![trigger new_bucket_vec@[b].entries()[j], new_bucket_vec@[b2].entries()[j2]]
                0 <= b < new_bucket_vec@.len() && 0 <= j < new_bucket_vec@[b].entries().len() && 0
                    <= b2 < new_bucket_vec@.len() && 0 <= j2
                    < new_bucket_vec@[b2].entries().len() && (b != b2 || j != j2) implies
            new_bucket_vec@[b].entries()[j].0@ != new_bucket_vec@[b2].entries()[j2].0@ by {
                if b == b2 {
                } else {
                    let w = new_bucket_vec@[b].entries()[j].0@;
                    let w2 = new_bucket_vec@[b2].entries()[j2].0@;
                    assert(prior.bucket_of(w) == b);
                    assert(prior.bucket_of(w2) == b2);
                }
            }
            assert forall|b: int, j: int|
                0 <= b < new_bucket_vec@.len() && 0 <= j < (
            #[trigger] new_bucket_vec@[b]).entries().len() implies (#[trigger] prior.contains_key(
                new_bucket_vec@[b].entries()[j].0@,
            )) && new_bucket_vec@[b].entries()[j].1.value() == prior.spec_get(
                new_bucket_vec@[b].entries()[j].0@,
            ) && !self.contains_key(new_bucket_vec@[b].entries()[j].0@)
                && new_bucket_vec@[b].entries()[j].1.wf() by {
                let w = new_bucket_vec@[b].entries()[j].0@;
                prior.bucket_vec@[b].lemma_idx_unique(w, j);
                assert(prior.bucket_of(w) == b);
            }
            assert forall|kv: K::V| #[trigger] prior.contains_key(kv) implies self.contains_key(kv)
                || buckets_have(new_bucket_vec@, kv) by {
                if prior.contains_key(kv) {
                    assert(prior.bucket_vec@[prior.bucket_of(kv)].has_key(kv));
                    assert(buckets_have(new_bucket_vec@, kv));
                }
            }
        }
        while new_bucket_vec.len() > 0
            invariant
                self.bucket_vec@.len() == new_len,
                new_len == if prior.bucket_vec@.len() == 0 {
                    1int
                } else {
                    2 * prior.bucket_vec@.len() as int
                },
                self.is_creator == prior.is_creator,
                self.wf(),
                self.rem_entries_ok(&prior, new_bucket_vec@),
                Self::rem_distinct(new_bucket_vec@),
                self.rehash_covered(&prior, new_bucket_vec@),
                self.rehash_faithful(&prior),
            decreases new_bucket_vec@.len(),
        {
            let ghost bs_before = new_bucket_vec@;
            let mut bucket = new_bucket_vec.pop().unwrap();
            let ghost rem = new_bucket_vec@.push(bucket);
            proof {
                assert(rem =~= bs_before);
            }
            while bucket.pair_vec.len() > 0
                invariant
                    self.bucket_vec@.len() == new_len,
                    new_len == if prior.bucket_vec@.len() == 0 {
                        1int
                    } else {
                        2 * prior.bucket_vec@.len() as int
                    },
                    self.is_creator == prior.is_creator,
                    self.wf(),
                    self.rem_entries_ok(&prior, new_bucket_vec@.push(bucket)),
                    Self::rem_distinct(new_bucket_vec@.push(bucket)),
                    self.rehash_covered(&prior, new_bucket_vec@.push(bucket)),
                    self.rehash_faithful(&prior),
                decreases bucket.pair_vec@.len(),
            {
                let ghost rem0 = new_bucket_vec@.push(bucket);
                let ghost self0 = *self;
                let pair = bucket.pair_vec.pop().unwrap();
                let ghost kv = pair.0@;
                let ghost pcell: AtomicCell<V> = pair.1;
                let ghost rem1 = new_bucket_vec@.push(bucket);
                let ghost lb = rem0.len() - 1;
                let ghost lj = rem0[lb].entries().len() - 1;
                proof {
                    // The popped entry is the last of the last remaining
                    // bucket; it is a prior entry not yet placed.
                    assert(rem0[lb].entries()[lj] == pair);
                    assert(prior.contains_key(rem0[lb].entries()[lj].0@));
                    assert(prior.contains_key(kv));
                    assert(pcell.value() == prior.spec_get(kv));
                    assert(!self.contains_key(kv));
                    assert(pcell.wf());
                    assert(rem1[lb].entries() == rem0[lb].entries().drop_last());
                    assert forall|b: int| 0 <= b < rem0.len() - 1 implies rem1[b] == rem0[b] by {}
                }
                let hash = pair.0.key_hash();
                let spot = (hash % (self.bucket_vec.len() as u64)) as usize;
                proof {
                    assert(spot as int == self.bucket_of(kv));
                }
                let target = &mut self.bucket_vec[spot];
                target.insert_raw(pair);
                proof {
                    self.lemma_bucket_mutation(&self0, spot as int, kv);
                    assert(self.contains_key(kv));
                    assert(self.spec_get(kv) == pcell.value());
                    // The entries still waiting are the old ones short of the
                    // popped entry, so each is still a prior entry, its key is
                    // not the placed one, and it is not in the new table.
                    assert forall|b: int, j: int|
                        0 <= b < rem1.len() && 0 <= j < rem1[b].entries().len() implies (
                    #[trigger] prior.contains_key(rem1[b].entries()[j].0@))
                        && rem1[b].entries()[j].1.value() == prior.spec_get(
                        rem1[b].entries()[j].0@,
                    ) && !self.contains_key(rem1[b].entries()[j].0@)
                        && rem1[b].entries()[j].1.wf() by {
                        assert(rem1[b].entries()[j] == rem0[b].entries()[j]);
                        assert(prior.contains_key(rem0[b].entries()[j].0@));
                        assert(rem0[b].entries()[j].0@ != rem0[lb].entries()[lj].0@);
                        let w = rem1[b].entries()[j].0@;
                        assert(self.contains_key(w) == self0.contains_key(w));
                    }
                    assert(self.rem_entries_ok(&prior, rem1));
                    // Waiting keys stay pairwise distinct.
                    assert forall|b: int, j: int, b2: int, j2: int|
                        #![trigger rem1[b].entries()[j], rem1[b2].entries()[j2]]
                        0 <= b < rem1.len() && 0 <= j < rem1[b].entries().len() && 0 <= b2
                            < rem1.len() && 0 <= j2 < rem1[b2].entries().len() && (b != b2 || j
                            != j2) implies rem1[b].entries()[j].0@ != rem1[b2].entries()[j2].0@ by {
                        assert(rem1[b].entries()[j] == rem0[b].entries()[j]);
                        assert(rem1[b2].entries()[j2] == rem0[b2].entries()[j2]);
                        assert(rem0[b].entries()[j].0@ != rem0[b2].entries()[j2].0@);
                    }
                    assert(Self::rem_distinct(rem1));
                    // Every prior key is in the new table or still waiting.
                    assert forall|kv2: K::V| #[trigger] prior.contains_key(kv2) implies
                    self.contains_key(kv2) || buckets_have(rem1, kv2) by {
                        if !self.contains_key(kv2) && kv2 != kv {
                            assert(self.contains_key(kv2) == self0.contains_key(kv2));
                            assert(!self0.contains_key(kv2));
                            assert(buckets_have(rem0, kv2));
                            let b = choose|b: int|
                                0 <= b < rem0.len() && (#[trigger] rem0[b]).has_key(kv2);
                            let j = choose|j: int|
                                0 <= j < rem0[b].entries().len() && (#[trigger] rem0[b].entries()[
                                    j
                                ]).0@ == kv2;
                            if b == lb && j == lj {
                                assert(kv2 == kv);
                            } else if b == lb {
                                assert(rem0[b].entries()[j].0@ != rem0[lb].entries()[lj].0@);
                                assert(j < lj);
                                assert(rem1[lb].entries()[j] == rem0[lb].entries()[j]);
                                assert(rem1[lb].has_key(kv2));
                            } else {
                                assert(rem1[b].entries() == rem0[b].entries());
                                assert(rem1[b].entries()[j].0@ == kv2);
                                assert(rem1[b].has_key(kv2));
                            }
                            assert(buckets_have(rem1, kv2));
                        }
                    }
                    assert(self.rehash_covered(&prior, rem1));
                    // The new table still holds only prior keys with their
                    // prior values.
                    assert forall|kv2: K::V| #[trigger] self.contains_key(kv2) implies
                    prior.contains_key(kv2) && self.spec_get(kv2) == prior.spec_get(kv2) by {
                        if kv2 != kv {
                            assert(self.contains_key(kv2) == self0.contains_key(kv2));
                            if self0.contains_key(kv2) {
                                assert(self.spec_get(kv2) == self0.spec_get(kv2));
                            }
                        }
                    }
                    assert(self.rehash_faithful(&prior));
                }
            }
            proof {
                // The drained bucket is empty: dropping it loses no waiting
                // entry.
                assert forall|kv2: K::V| #[trigger] prior.contains_key(kv2) implies
                self.contains_key(kv2) || buckets_have(new_bucket_vec@, kv2) by {
                    if !self.contains_key(kv2) {
                        let r1 = new_bucket_vec@.push(bucket);
                        assert(buckets_have(r1, kv2));
                        let b = choose|b: int| 0 <= b < r1.len() && (#[trigger] r1[b]).has_key(kv2);
                        if b == r1.len() - 1 {
                            assert(r1[b].entries().len() == 0);
                            assert(false);
                        } else {
                            assert(new_bucket_vec@[b] == r1[b]);
                        }
                    }
                }
                assert forall|b: int, j: int|
                    0 <= b < new_bucket_vec@.len() && 0 <= j < (
                #[trigger] new_bucket_vec@[b]).entries().len() implies (
                #[trigger] prior.contains_key(new_bucket_vec@[b].entries()[j].0@))
                    && new_bucket_vec@[b].entries()[j].1.value() == prior.spec_get(
                    new_bucket_vec@[b].entries()[j].0@,
                ) && !self.contains_key(new_bucket_vec@[b].entries()[j].0@)
                    && new_bucket_vec@[b].entries()[j].1.wf() by {
                    let r1 = new_bucket_vec@.push(bucket);
                    assert(r1[b].entries()[j] == new_bucket_vec@[b].entries()[j]);
                    assert(prior.contains_key(r1[b].entries()[j].0@));
                }
                assert forall|b: int, j: int, b2: int, j2: int|
                    #![trigger new_bucket_vec@[b].entries()[j], new_bucket_vec@[b2].entries()[j2]]
                    0 <= b < new_bucket_vec@.len() && 0 <= j < new_bucket_vec@[b].entries().len()
                        && 0 <= b2 < new_bucket_vec@.len() && 0 <= j2
                        < new_bucket_vec@[b2].entries().len() && (b != b2 || j != j2) implies
                new_bucket_vec@[b].entries()[j].0@ != new_bucket_vec@[b2].entries()[j2].0@ by {
                    let r1 = new_bucket_vec@.push(bucket);
                    assert(r1[b].entries()[j] == new_bucket_vec@[b].entries()[j]);
                    assert(r1[b2].entries()[j2] == new_bucket_vec@[b2].entries()[j2]);
                }
            }
        }
        Some(())
    }
}

impl<K: MapKey, V> MlcMap<K, V> {
    /// An editing handle on the same entries: a table of fresh buckets whose
    /// entries carry the same keys and hold the same value handles, flagged
    /// as no creator, so it may read and edit values but not restructure.
    pub fn new_editor(&self) -> (r: Self)
        requires
            self.wf(),
        ensures
            r.wf(),
            !r.creator(),
            r.num_buckets() == self.num_buckets(),
            forall|kv: K::V|
                (#[trigger] r.contains_key(kv)) == self.contains_key(kv) && (self.contains_key(kv)
                    ==> r.spec_get(kv) == self.spec_get(kv)),
    {
        let mut vector: Vec<Bucket<K, V>> = Vec::new();
        let mut b: usize = 0;
        while b < self.bucket_vec.len()
            invariant
                self.wf(),
                b <= self.bucket_vec@.len(),
                vector@.len() == b,
                forall|c: int|
                    0 <= c < b ==> (#[trigger] vector@[c]).entries().len() == self.bucket_vec@[
                        c
                    ].entries().len(),
                forall|c: int, j: int|
                    #![trigger vector@[c].entries()[j]]
                    0 <= c < b && 0 <= j < vector@[c].entries().len() ==> vector@[c].entries()[
                        j
                    ].0@ == self.bucket_vec@[c].entries()[j].0@ && vector@[c].entries()[j].1.value()
                        == self.bucket_vec@[c].entries()[j].1.value() && vector@[c].entries()[
                        j
                    ].1.wf(),
            decreases self.bucket_vec@.len() - b,
        {
            let src_bucket = &self.bucket_vec[b];
            let mut entries: Vec<(K, AtomicCell<V>)> = Vec::new();
            let mut j: usize = 0;
            while j < src_bucket.pair_vec.len()
                invariant
                    self.wf(),
                    b < self.bucket_vec@.len(),
                    src_bucket == self.bucket_vec@[b as int],
                    j <= src_bucket.entries().len(),
                    entries@.len() == j,
                    forall|i: int|
                        #![trigger entries@[i]]
                        0 <= i < j ==> entries@[i].0@ == src_bucket.entries()[i].0@ && entries@[
                            i
                        ].1.value() == src_bucket.entries()[i].1.value() && entries@[i].1.wf(),
                decreases src_bucket.entries().len() - j,
            {
                let e = &src_bucket.pair_vec[j];
                proof {
                    assert(src_bucket.entries()[j as int].1.wf());
                }
                let copied_key = e.0.key_clone();
                let cell = AtomicCell::new_from_arc(e.1.load());
                entries.push((copied_key, cell));
                j = j + 1;
            }
            vector.push(Bucket { pair_vec: entries });
            b = b + 1;
        }
        let r = MlcMap { is_creator: false, bucket_vec: vector };
        proof {
            let n = self.bucket_vec@.len() as int;
            assert forall|c: int| 0 <= c < n implies (#[trigger] r.bucket_vec@[c]).wf() by {
                assert forall|i: int, j2: int|
                    0 <= i < j2 < r.bucket_vec@[c].entries().len() implies (
                #[trigger] r.bucket_vec@[c].entries()[i]).0@ != (#[trigger] r.bucket_vec@[
                    c
                ].entries()[j2]).0@ by {
                    assert(self.bucket_vec@[c].entries()[i].0@ != self.bucket_vec@[c].entries()[
                        j2
                    ].0@);
                }
            }
            assert forall|c: int, j2: int|
                0 <= c < n && 0 <= j2 < r.bucket_vec@[c].entries().len() implies r.bucket_of(
                (#[trigger] r.bucket_vec@[c].entries()[j2]).0@,
            ) == c by {
                let w = r.bucket_vec@[c].entries()[j2].0@;
                assert(self.bucket_vec@[c].entries()[j2].0@ == w);
                assert(self.bucket_of(w) == c);
            }
            assert forall|kv: K::V| (#[trigger] r.contains_key(kv)) == self.contains_key(kv) && (
            self.contains_key(kv) ==> r.spec_get(kv) == self.spec_get(kv)) by {
                if n > 0 {
                    let bw = self.bucket_of(kv);
                    assert(r.bucket_of(kv) == bw);
                    vstd::std_specs::vec::axiom_spec_len(&self.bucket_vec);
                    assert(0 <= bw < n);
                    let sb = self.bucket_vec@[bw];
                    let rb = r.bucket_vec@[bw];
                    if sb.has_key(kv) {
                        let j2 = sb.idx_of(kv);
                        sb.lemma_idx_unique(kv, j2);
                        assert(rb.entries()[j2].0@ == kv);
                        rb.lemma_idx_unique(kv, j2);
                        assert(rb.val_of(kv) == sb.val_of(kv));
                    }
                    if rb.has_key(kv) {
                        let j2 = rb.idx_of(kv);
                        rb.lemma_idx_unique(kv, j2);
                        assert(sb.entries()[j2].0@ == kv);
                        sb.lemma_idx_unique(kv, j2);
                    }
                }
            }
        }
        r
    }
}

impl<K: MapKey, V: Copy> MlcMap<K, V> {
    /// A copy of the current value for `key`, or nothing when absent.
    pub fn get_owned(&self, key: &K) -> (r: Option<V>)
        requires
            self.wf(),
        ensures
            self.contains_key(key@) ==> (r matches Some(v) && v == self.spec_get(key@)),
            !self.contains_key(key@) ==> r is None,
    {
        match self.get(key) {
            Some(arc) => Some(*arc),
            None => None,
        }
    }
}

} // verus!
