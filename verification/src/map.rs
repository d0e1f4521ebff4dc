//! A module for the [`PetitMap`] data structure

use crate::slots::{count_occupied, distinct_keys, first_empty_from, insert_all, insert_pair,
    lemma_count_empty, lemma_count_full, lemma_count_le_len, lemma_count_update,
    lemma_first_empty_from, lemma_insert_all_concat, lemma_insert_all_singleton, lemma_insert_pair_extant,
    lemma_insert_pair_full, lemma_insert_pair_novel, lemma_occupied_seq_len,
    lemma_occupied_seq_take_step, occupied_seq, seq_contains_key, seq_index_of, slot_keyed};
use crate::CapacityError;
use vstd::laws_eq::obeys_concrete_eq;
use vstd::pervasive::VecAdditionalExecFns;
use vstd::prelude::*;

verus! {

/// A map-like data structure with a fixed maximum size
///
/// This data structure does not require the `Hash` or `Ord` traits,
/// and instead uses linear iteration to find entries.
/// Iteration order is guaranteed to be stable, and elements are not
/// re-compressed upon removal.
///
/// Only `CAP` entries may be stored at once.
///
/// Principally, this data structure should be used for relatively small maps,
/// where iteration performance, stable-order and uniqueness
/// are more important than insertion or look-up speed.
/// Iteration, insertion and checking whether an element is in the map are
/// O(CAP); indexing into a particular element is O(1), as is removing an
/// element at a specific index.
///
/// The entries are stored as `Option`s within a fixed-length backing store;
/// keys are guaranteed to be unique in every well-formed map.
///
/// Most operations require the key type to have a `PartialEq` implementation
/// that agrees with logical equality (`obeys_concrete_eq`); every type whose
/// `==` is derived structurally, such as the primitive integers, satisfies
/// this.
#[derive(Clone, Debug, Hash)]
pub struct PetitMap<K, V, const CAP: usize> {
    slots: Vec<Option<(K, V)>>,
}

impl<K, V, const CAP: usize> View for PetitMap<K, V, CAP> {
    type V = Seq<Option<(K, V)>>;

    closed spec fn view(&self) -> Seq<Option<(K, V)>> {
        self.slots@
    }
}

/// Compares two values with `==`; the result is pinned to logical equality
/// by the `obeys_concrete_eq` hypothesis.
pub(crate) fn concrete_eq<T: PartialEq>(a: &T, b: &T) -> (r: bool)
    requires
        obeys_concrete_eq::<T>(),
    ensures
        r <==> (*a == *b),
{
    proof {
        reveal(vstd::laws_eq::obeys_concrete_eq);
    }
    *a == *b
}

impl<K, V, const CAP: usize> PetitMap<K, V, CAP> {
    /// Well-formedness: the backing store holds exactly `CAP` slots, and no
    /// two occupied slots share a key.
    pub open spec fn wf(self) -> bool {
        &&& self@.len() == CAP
        &&& distinct_keys(self@)
    }

    /// Does some slot hold an entry with key `k`?
    pub open spec fn spec_contains_key(self, k: K) -> bool {
        seq_contains_key(self@, k)
    }

    /// The index of the slot holding key `k` (meaningful when
    /// `spec_contains_key(k)` holds; unique in a well-formed map).
    pub open spec fn spec_index_of(self, k: K) -> int {
        seq_index_of(self@, k)
    }

    /// The value stored under key `k`, if any.
    pub open spec fn spec_get(self, k: K) -> Option<V> {
        if self.spec_contains_key(k) {
            Some((self@[self.spec_index_of(k)]->0).1)
        } else {
            None
        }
    }

    /// The number of occupied slots.
    pub open spec fn spec_len(self) -> nat {
        count_occupied(self@)
    }

    /// Create a new empty [`PetitMap`].
    ///
    /// The capacity is given by the generic parameter `CAP`.
    pub fn new() -> (r: Self)
        ensures
            r.wf(),
            forall|i: int| 0 <= i < CAP ==> r@[i] is None,
            r.spec_len() == 0,
    {
        let mut slots: Vec<Option<(K, V)>> = Vec::new();
        let mut i: usize = 0;
        while i < CAP
            invariant
                i <= CAP,
                slots@.len() == i,
                forall|j: int| 0 <= j < i ==> slots@[j] is None,
            decreases CAP - i,
        {
            slots.push(None);
            i += 1;
        }
        proof {
            lemma_count_empty(slots@);
        }
        PetitMap { slots }
    }

    /// Returns the current number of key-value pairs in the [`PetitMap`]
    pub fn len(&self) -> (r: usize)
        requires
            self.wf(),
        ensures
            r == self.spec_len(),
    {
        let mut n: usize = 0;
        let mut i: usize = 0;
        while i < CAP
            invariant
                self.wf(),
                i <= CAP,
                n == count_occupied(self@.take(i as int)),
                n <= i,
            decreases CAP - i,
        {
            proof {
                assert(self@.take(i + 1).drop_last() =~= self@.take(i as int));
                assert(self@.take(i + 1).last() == self@[i as int]);
            }
            if self.slots[i].is_some() {
                n += 1;
            }
            i += 1;
        }
        proof {
            assert(self@.take(CAP as int) =~= self@);
        }
        n
    }

    /// Returns the maximum number of elements that can be stored in the [`PetitMap`]
    pub fn capacity(&self) -> (r: usize)
        ensures
            r == CAP,
    {
        CAP
    }

    /// Are there exactly 0 elements in the [`PetitMap`]?
    pub fn is_empty(&self) -> (r: bool)
        requires
            self.wf(),
        ensures
            r <==> self.spec_len() == 0,
    {
        self.len() == 0
    }

    /// Are there exactly CAP elements in the [`PetitMap`]?
    pub fn is_full(&self) -> (r: bool)
        requires
            self.wf(),
        ensures
            r <==> self.spec_len() == CAP,
    {
        self.len() == CAP
    }
}

impl<K: Eq, V, const CAP: usize> PetitMap<K, V, CAP> {
    /// Returns the index for the provided key, if it exists in the map
    ///
    /// The scan runs in index order, so the returned index is the first
    /// match; in a well-formed map it is the only one.
    pub fn find(&self, key: &K) -> (r: Option<usize>)
        requires
            self.wf(),
            obeys_concrete_eq::<K>(),
        ensures
            match r {
                Some(i) => i < CAP && slot_keyed(self@[i as int], *key) && (forall|j: int|
                    0 <= j < i ==> !slot_keyed(self@[j], *key)),
                None => !self.spec_contains_key(*key),
            },
    {
        let mut i: usize = 0;
        while i < CAP
            invariant
                self.wf(),
                obeys_concrete_eq::<K>(),
                i <= CAP,
                forall|j: int| 0 <= j < i ==> !slot_keyed(self@[j], *key),
            decreases CAP - i,
        {
            if let Some((existing_key, _val)) = &self.slots[i] {
                if concrete_eq(key, existing_key) {
                    return Some(i);
                }
            }
            i += 1;
        }
        None
    }

    /// Does the map contain the provided key?
    pub fn contains_key(&self, key: &K) -> (r: bool)
        requires
            self.wf(),
            obeys_concrete_eq::<K>(),
        ensures
            r <==> self.spec_contains_key(*key),
    {
        self.find(key).is_some()
    }
}

/// The `Ok` result of a successful [`PetitMap`] insertion operation
#[derive(Debug, PartialEq, Eq, Clone, Copy)]
pub enum SuccesfulMapInsertion<V> {
    /// This is a new key: the key-value pair is stored at the provided index
    NovelKey(usize),
    /// The key already existed, so the old value and the index were returned
    ExtantKey(V, usize),
}

impl<K, V, const CAP: usize> PetitMap<K, V, CAP> {
    /// In a well-formed map, a slot holding key `k` is the unique such slot,
    /// and it is the one the key-level spec functions describe.
    pub proof fn lemma_key_index(self, k: K, i: int)
        requires
            self.wf(),
            0 <= i < CAP,
            slot_keyed(self@[i], k),
        ensures
            self.spec_contains_key(k),
            self.spec_index_of(k) == i,
            self.spec_get(k) == Some((self@[i]->0).1),
    {
        assert(self.spec_contains_key(k));
        let j = self.spec_index_of(k);
        assert(0 <= j < self@.len() && slot_keyed(self@[j], k));
        if j != i {
            assert(self@[i] is Some && self@[j] is Some);
            assert((self@[i]->0).0 == k && (self@[j]->0).0 == k);
            assert(false);
        }
    }

    /// Takes the entry out of slot `index`, leaving the slot empty.
    fn slot_take(&mut self, index: usize) -> (r: Option<(K, V)>)
        requires
            index < old(self)@.len(),
        ensures
            r == old(self)@[index as int],
            final(self)@ == old(self)@.update(index as int, None::<(K, V)>),
    {
        let mut removed: Option<(K, V)> = None;
        self.slots.set_and_swap(index, &mut removed);
        removed
    }

    /// Returns a reference to the entry at the provided index.
    ///
    /// Returns `Some((&K, &V))` if the index has an element.
    pub fn get_at(&self, index: usize) -> (r: Option<(&K, &V)>)
        requires
            self.wf(),
            index < CAP,
        ensures
            match r {
                Some(kv) => self@[index as int] == Some((*kv.0, *kv.1)),
                None => self@[index as int] is None,
            },
    {
        match &self.slots[index] {
            Some((key, value)) => Some((key, value)),
            None => None,
        }
    }

    /// Returns a mutable reference to the entry at the provided index.
    ///
    /// Returns `Some((&mut K, &mut V))` if the index has an element.
    /// Writing a key through the returned reference that duplicates another
    /// stored key is a logic error, exactly as for the unchecked constructors.
    pub fn get_at_mut(&mut self, index: usize) -> (r: Option<(&mut K, &mut V)>)
        requires
            old(self).wf(),
            index < CAP,
        ensures
            match r {
                Some(kv) => {
                    &&& old(self)@[index as int] == Some((*kv.0, *kv.1))
                    &&& final(self)@ == old(self)@.update(
                        index as int,
                        Some((*final(kv.0), *final(kv.1))),
                    )
                },
                None => {
                    &&& old(self)@[index as int] is None
                    &&& final(self)@ == old(self)@
                },
            },
    {
        let ghost snapshot = self@;
        match &mut self.slots[index] {
            Some(pair) => Some((&mut pair.0, &mut pair.1)),
            None => {
                proof {
                    assert(snapshot.update(index as int, snapshot[index as int]) =~= snapshot);
                }
                None
            },
        }
    }

    /// Removes the element at the provided index
    ///
    /// Returns true if an element was found
    pub fn remove_at(&mut self, index: usize) -> (r: bool)
        requires
            old(self).wf(),
            index < CAP,
        ensures
            r <==> old(self)@[index as int] is Some,
            final(self)@ == old(self)@.update(index as int, None::<(K, V)>),
            final(self).wf(),
            final(self).spec_len() == old(self).spec_len() - (if r {
                1int
            } else {
                0int
            }),
    {
        self.take_at(index).is_some()
    }

    /// Removes the key-value pair at the provided index
    ///
    /// Returns `Some((K, V))` if the index was full.
    pub fn take_at(&mut self, index: usize) -> (r: Option<(K, V)>)
        requires
            old(self).wf(),
            index < CAP,
        ensures
            r == old(self)@[index as int],
            final(self)@ == old(self)@.update(index as int, None::<(K, V)>),
            final(self).wf(),
            final(self).spec_len() == old(self).spec_len() - (if r is Some {
                1int
            } else {
                0int
            }),
    {
        let r = self.slot_take(index);
        proof {
            lemma_count_update(old(self)@, index as int, None::<(K, V)>);
        }
        r
    }

    /// Returns the index of the next filled slot at or after `cursor`, if any
    ///
    /// Returns None if the cursor is larger than CAP
    pub fn next_filled_index(&self, cursor: usize) -> (r: Option<usize>)
        requires
            self.wf(),
        ensures
            match r {
                Some(i) => cursor <= i < CAP && self@[i as int] is Some && (forall|j: int|
                    cursor <= j < i ==> self@[j] is None),
                None => forall|j: int| cursor <= j < CAP ==> self@[j] is None,
            },
    {
        if cursor >= CAP {
            return None;
        }
        let mut i: usize = cursor;
        while i < CAP
            invariant
                self.wf(),
                cursor <= i <= CAP,
                forall|j: int| cursor <= j < i ==> self@[j] is None,
            decreases CAP - i,
        {
            if self.slots[i].is_some() {
                return Some(i);
            }
            i += 1;
        }
        None
    }

    /// Returns the index of the next empty slot at or after `cursor`, if any
    ///
    /// Returns None if the cursor is larger than CAP
    pub fn next_empty_index(&self, cursor: usize) -> (r: Option<usize>)
        requires
            self.wf(),
        ensures
            match r {
                Some(i) => cursor <= i < CAP && self@[i as int] is None && (forall|j: int|
                    cursor <= j < i ==> self@[j] is Some),
                None => forall|j: int| cursor <= j < CAP ==> self@[j] is Some,
            },
    {
        if cursor >= CAP {
            return None;
        }
        let mut i: usize = cursor;
        while i < CAP
            invariant
                self.wf(),
                cursor <= i <= CAP,
                forall|j: int| cursor <= j < i ==> self@[j] is Some,
            decreases CAP - i,
        {
            if self.slots[i].is_none() {
                return Some(i);
            }
            i += 1;
        }
        None
    }

    /// Swaps the element in `index_a` with the element in `index_b`
    pub fn swap_at(&mut self, index_a: usize, index_b: usize)
        requires
            old(self).wf(),
            index_a < CAP,
            index_b < CAP,
        ensures
            final(self)@ == old(self)@.update(index_a as int, old(self)@[index_b as int]).update(
                index_b as int,
                old(self)@[index_a as int],
            ),
            final(self).wf(),
            final(self).spec_len() == old(self).spec_len(),
    {
        let ghost s0 = self@;
        if index_a == index_b {
            proof {
                let a = index_a as int;
                assert(self@ =~= s0.update(a, s0[a]).update(a, s0[a]));
            }
            return ;
        }
        let mut tmp: Option<(K, V)> = None;
        self.slots.set_and_swap(index_a, &mut tmp);
        self.slots.set_and_swap(index_b, &mut tmp);
        self.slots.set_and_swap(index_a, &mut tmp);
        proof {
            let a = index_a as int;
            let b = index_b as int;
            assert(self@ =~= s0.update(a, s0[b]).update(b, s0[a]));
            lemma_count_update(s0, a, s0[b]);
            lemma_count_update(s0.update(a, s0[b]), b, s0[a]);
        }
    }

    /// Removes all elements from the map without de-allocation
    pub fn clear(&mut self)
        requires
            old(self).wf(),
        ensures
            final(self).wf(),
            forall|i: int| 0 <= i < CAP ==> final(self)@[i] is None,
            final(self).spec_len() == 0,
    {
        let mut index: usize = 0;
        while index < CAP
            invariant
                self@.len() == CAP,
                distinct_keys(self@),
                index <= CAP,
                forall|j: int| 0 <= j < index ==> self@[j] is None,
            decreases CAP - index,
        {
            self.slots.set(index, None);
            index += 1;
        }
        proof {
            lemma_count_empty(self@);
        }
    }

    /// Inserts a key-value pair into the next empty index of the map,
    /// without checking for uniqueness
    ///
    /// Returns Some(index) if the operation succeeded, or None if it failed.
    ///
    /// The caller must guarantee that the key is not already present; this is
    /// what the precondition states.  Unverified callers that break it get a
    /// map with duplicate keys, whose behaviour is unpredictable.
    pub fn insert_unchecked(&mut self, key: K, value: V) -> (r: Option<usize>)
        requires
            old(self).wf(),
            !old(self).spec_contains_key(key),
        ensures
            final(self).wf(),
            match r {
                Some(i) => {
                    &&& i < CAP
                    &&& old(self)@[i as int] is None
                    &&& (forall|j: int| 0 <= j < i ==> old(self)@[j] is Some)
                    &&& final(self)@ == old(self)@.update(i as int, Some((key, value)))
                    &&& final(self).spec_len() == old(self).spec_len() + 1
                },
                None => {
                    &&& *final(self) == *old(self)
                    &&& old(self).spec_len() == CAP
                },
            },
    {
        let index = match self.next_empty_index(0) {
            Some(i) => i,
            None => {
                proof {
                    lemma_count_full(self@);
                }
                return None;
            },
        };
        self.slots.set(index, Some((key, value)));
        proof {
            lemma_count_update(old(self)@, index as int, Some((key, value)));
        }
        Some(index)
    }
}

impl<K: Eq, V, const CAP: usize> PetitMap<K, V, CAP> {
    /// Attempts to store the value into the map, which can be looked up by the key
    ///
    /// Inserts the element if able, then returns the [`Result`] of that operation.
    /// This is either a [`SuccesfulMapInsertion`] or a [`CapacityError`].
    ///
    /// If the key exists, its value is overwritten in place and the prior
    /// value returned; otherwise the pair occupies the lowest-index empty
    /// slot; a genuinely new key arriving at a full map is rejected with the
    /// pair handed back unconsumed.
    pub fn try_insert(&mut self, key: K, value: V) -> (r: Result<
        SuccesfulMapInsertion<V>,
        CapacityError<(K, V)>,
    >)
        requires
            old(self).wf(),
            obeys_concrete_eq::<K>(),
        ensures
            final(self).wf(),
            match r {
                Ok(SuccesfulMapInsertion::ExtantKey(old_value, i)) => {
                    &&& i < CAP
                    &&& old(self)@[i as int] == Some((key, old_value))
                    &&& old(self).spec_index_of(key) == i
                    &&& final(self)@ == old(self)@.update(i as int, Some((key, value)))
                    &&& final(self).spec_len() == old(self).spec_len()
                },
                Ok(SuccesfulMapInsertion::NovelKey(i)) => {
                    &&& i < CAP
                    &&& !old(self).spec_contains_key(key)
                    &&& old(self)@[i as int] is None
                    &&& (forall|j: int| 0 <= j < i ==> old(self)@[j] is Some)
                    &&& final(self)@ == old(self)@.update(i as int, Some((key, value)))
                    &&& final(self).spec_len() == old(self).spec_len() + 1
                },
                Err(e) => {
                    &&& e == CapacityError((key, value))
                    &&& !old(self).spec_contains_key(key)
                    &&& old(self).spec_len() == CAP
                    &&& *final(self) == *old(self)
                },
            },
            final(self).spec_contains_key(key) || r is Err,
    {
        match self.find(&key) {
            Some(index) => {
                proof {
                    old(self).lemma_key_index(key, index as int);
                }
                match self.slot_take(index) {
                    Some(kv) => {
                        let (stored_key, old_value) = kv;
                        self.slots.set(index, Some((stored_key, value)));
                        proof {
                            assert(self@ =~= old(self)@.update(index as int, Some((key, value))));
                            lemma_count_update(old(self)@, index as int, Some((key, value)));
                            assert(slot_keyed(self@[index as int], key));
                        }
                        Ok(SuccesfulMapInsertion::ExtantKey(old_value, index))
                    },
                    None => vstd::pervasive::unreached(),
                }
            },
            None => {
                match self.next_empty_index(0) {
                    Some(index) => {
                        self.slots.set(index, Some((key, value)));
                        proof {
                            lemma_count_update(old(self)@, index as int, Some((key, value)));
                            assert(slot_keyed(self@[index as int], key));
                        }
                        Ok(SuccesfulMapInsertion::NovelKey(index))
                    },
                    None => {
                        proof {
                            lemma_count_full(self@);
                        }
                        Err(CapacityError((key, value)))
                    },
                }
            },
        }
    }

    /// Stores the value in the map, which can be looked up by the key
    ///
    /// Returns a [`SuccesfulMapInsertion`], which encodes both
    /// the index at which the element is stored and whether the key was already present.
    /// If a key was already present, the previous value is also returned.
    ///
    /// Overflowing the map with a non-duplicate key is a caller error, which
    /// the precondition rules out; an unverified caller that does it anyway
    /// hits an unconditional runtime failure.
    pub fn insert(&mut self, key: K, value: V) -> (r: SuccesfulMapInsertion<V>)
        requires
            old(self).wf(),
            obeys_concrete_eq::<K>(),
            old(self).spec_contains_key(key) || old(self).spec_len() < CAP,
        ensures
            final(self).wf(),
            final(self).spec_contains_key(key),
            match r {
                SuccesfulMapInsertion::ExtantKey(old_value, i) => {
                    &&& i < CAP
                    &&& old(self)@[i as int] == Some((key, old_value))
                    &&& old(self).spec_index_of(key) == i
                    &&& final(self)@ == old(self)@.update(i as int, Some((key, value)))
                    &&& final(self).spec_len() == old(self).spec_len()
                },
                SuccesfulMapInsertion::NovelKey(i) => {
                    &&& i < CAP
                    &&& !old(self).spec_contains_key(key)
                    &&& old(self)@[i as int] is None
                    &&& (forall|j: int| 0 <= j < i ==> old(self)@[j] is Some)
                    &&& final(self)@ == old(self)@.update(i as int, Some((key, value)))
                    &&& final(self).spec_len() == old(self).spec_len() + 1
                },
            },
    {
        match self.try_insert(key, value) {
            Ok(success) => success,
            Err(_) => vstd::pervasive::unreached(),
        }
    }

    /// Returns a reference to the value corresponding to the key.
    ///
    /// Returns `Some(&V)` if the key is found
    pub fn get(&self, key: &K) -> (r: Option<&V>)
        requires
            self.wf(),
            obeys_concrete_eq::<K>(),
        ensures
            match r {
                Some(v) => self.spec_get(*key) == Some(*v),
                None => !self.spec_contains_key(*key),
            },
    {
        if let Some(index) = self.find(key) {
            proof {
                self.lemma_key_index(*key, index as int);
            }
            match &self.slots[index] {
                Some((_key, value)) => Some(value),
                None => vstd::pervasive::unreached(),
            }
        } else {
            None
        }
    }

    /// Returns the key-value pair corresponding to the supplied key.
    ///
    /// Returns `Some(&K, &V)` if the key is found
    pub fn get_key_value(&self, key: &K) -> (r: Option<(&K, &V)>)
        requires
            self.wf(),
            obeys_concrete_eq::<K>(),
        ensures
            match r {
                Some(kv) => self.spec_contains_key(*key) && self@[self.spec_index_of(*key)]
                    == Some((*kv.0, *kv.1)) && *kv.0 == *key,
                None => !self.spec_contains_key(*key),
            },
    {
        if let Some(index) = self.find(key) {
            proof {
                self.lemma_key_index(*key, index as int);
            }
            match &self.slots[index] {
                Some((stored_key, value)) => Some((stored_key, value)),
                None => vstd::pervasive::unreached(),
            }
        } else {
            None
        }
    }

    /// Returns a mutable reference to the value corresponding to the key.
    ///
    /// Returns `Some(&mut V)` if the key is found
    pub fn get_mut(&mut self, key: &K) -> (r: Option<&mut V>)
        requires
            old(self).wf(),
            obeys_concrete_eq::<K>(),
        ensures
            match r {
                Some(v) => {
                    &&& old(self).spec_get(*key) == Some(*v)
                    &&& final(self)@ == old(self)@.update(
                        old(self).spec_index_of(*key),
                        Some((*key, *final(v))),
                    )
                    &&& final(self).wf()
                },
                None => {
                    &&& !old(self).spec_contains_key(*key)
                    &&& *final(self) == *old(self)
                },
            },
    {
        if let Some(index) = self.find(key) {
            proof {
                old(self).lemma_key_index(*key, index as int);
            }
            match &mut self.slots[index] {
                Some(pair) => Some(&mut pair.1),
                None => vstd::pervasive::unreached(),
            }
        } else {
            None
        }
    }

    /// Removes the key-value pair from the map if the key is found
    ///
    /// Returns `Some((index))` if it was found
    pub fn remove(&mut self, key: &K) -> (r: Option<usize>)
        requires
            old(self).wf(),
            obeys_concrete_eq::<K>(),
        ensures
            final(self).wf(),
            match r {
                Some(i) => {
                    &&& i < CAP
                    &&& i == old(self).spec_index_of(*key)
                    &&& slot_keyed(old(self)@[i as int], *key)
                    &&& final(self)@ == old(self)@.update(i as int, None::<(K, V)>)
                    &&& final(self).spec_len() == old(self).spec_len() - 1
                    &&& !final(self).spec_contains_key(*key)
                },
                None => {
                    &&& !old(self).spec_contains_key(*key)
                    &&& *final(self) == *old(self)
                },
            },
    {
        if let Some(index) = self.find(key) {
            proof {
                old(self).lemma_key_index(*key, index as int);
            }
            let _ = self.take_at(index);
            proof {
                assert forall|j: int| 0 <= j < CAP implies !slot_keyed(self@[j], *key) by {
                    if j != index {
                        assert(self@[j] == old(self)@[j]);
                    }
                }
            }
            Some(index)
        } else {
            None
        }
    }

    /// Removes and returns the key-value pair from the map if the key is found
    ///
    /// Returns `Some((index, (K,V)))` if it was found
    pub fn take(&mut self, key: &K) -> (r: Option<(usize, (K, V))>)
        requires
            old(self).wf(),
            obeys_concrete_eq::<K>(),
        ensures
            final(self).wf(),
            match r {
                Some(ikv) => {
                    &&& ikv.0 < CAP
                    &&& ikv.0 == old(self).spec_index_of(*key)
                    &&& old(self)@[ikv.0 as int] == Some(ikv.1)
                    &&& ikv.1.0 == *key
                    &&& final(self)@ == old(self)@.update(ikv.0 as int, None::<(K, V)>)
                    &&& final(self).spec_len() == old(self).spec_len() - 1
                    &&& !final(self).spec_contains_key(*key)
                },
                None => {
                    &&& !old(self).spec_contains_key(*key)
                    &&& *final(self) == *old(self)
                },
            },
    {
        if let Some(index) = self.find(key) {
            proof {
                old(self).lemma_key_index(*key, index as int);
            }
            match self.take_at(index) {
                Some(pair) => {
                    proof {
                        assert forall|j: int| 0 <= j < CAP implies !slot_keyed(self@[j], *key) by {
                            if j != index {
                                assert(self@[j] == old(self)@[j]);
                            }
                        }
                    }
                    Some((index, pair))
                },
                None => vstd::pervasive::unreached(),
            }
        } else {
            None
        }
    }

    /// Swaps the positions of `key_a`'s entry with the position of `key_b`'s entry
    ///
    /// Returns true if both keys were found and successfully swapped.
    pub fn swap(&mut self, key_a: &K, key_b: &K) -> (r: bool)
        requires
            old(self).wf(),
            obeys_concrete_eq::<K>(),
        ensures
            final(self).wf(),
            r <==> (old(self).spec_contains_key(*key_a) && old(self).spec_contains_key(*key_b)),
            if r {
                final(self)@ == old(self)@.update(
                    old(self).spec_index_of(*key_a),
                    old(self)@[old(self).spec_index_of(*key_b)],
                ).update(old(self).spec_index_of(*key_b), old(self)@[old(self).spec_index_of(*key_a)])
            } else {
                *final(self) == *old(self)
            },
    {
        let found_a = self.find(key_a);
        let found_b = self.find(key_b);
        if let (Some(index_a), Some(index_b)) = (found_a, found_b) {
            proof {
                old(self).lemma_key_index(*key_a, index_a as int);
                old(self).lemma_key_index(*key_b, index_b as int);
            }
            self.swap_at(index_a, index_b);
            true
        } else {
            false
        }
    }

    /// Insert a new key-value pair at the provided index
    ///
    /// If a matching key already existed in the map, it will be moved to the supplied index.
    /// Any key-value pair that was previously there will be moved to the matching key's original index.
    ///
    /// Otherwise the pair is written to the supplied index, and
    /// `Some((K, V))` is returned if an unrelated entry was evicted by this.
    pub fn insert_at(&mut self, key: K, value: V, index: usize) -> (r: Option<(K, V)>)
        requires
            old(self).wf(),
            obeys_concrete_eq::<K>(),
            index < CAP,
        ensures
            final(self).wf(),
            if old(self).spec_contains_key(key) {
                {
                    &&& r is None
                    &&& final(self)@ == old(self)@.update(
                        old(self).spec_index_of(key),
                        old(self)@[index as int],
                    ).update(index as int, old(self)@[old(self).spec_index_of(key)])
                    &&& final(self).spec_len() == old(self).spec_len()
                }
            } else {
                {
                    &&& r == old(self)@[index as int]
                    &&& final(self)@ == old(self)@.update(index as int, Some((key, value)))
                    &&& final(self).spec_len() == old(self).spec_len() + (if r is Some {
                        0int
                    } else {
                        1int
                    })
                }
            },
    {
        if let Some(old_index) = self.find(&key) {
            proof {
                old(self).lemma_key_index(key, old_index as int);
            }
            self.swap_at(old_index, index);
            None
        } else {
            let removed = self.slot_take(index);
            self.slots.set(index, Some((key, value)));
            proof {
                assert(self@ =~= old(self)@.update(index as int, Some((key, value))));
                lemma_count_update(old(self)@, index as int, Some((key, value)));
            }
            removed
        }
    }
}


impl<K, V, const CAP: usize> PetitMap<K, V, CAP> {
    /// References to the key value pairs of the occupied slots, in index
    /// order: the first-in, first-out order as long as entries were added by
    /// append-style insertions.
    pub fn iter(&self) -> (r: Vec<(&K, &V)>)
        requires
            self.wf(),
        ensures
            r@.len() == self.spec_len(),
            forall|t: int|
                0 <= t < r@.len() ==> (*(#[trigger] r@[t]).0, *r@[t].1) == occupied_seq(self@)[t],
    {
        let mut out: Vec<(&K, &V)> = Vec::new();
        let mut i: usize = 0;
        while i < CAP
            invariant
                self.wf(),
                i <= CAP,
                out@.len() == count_occupied(self@.take(i as int)),
                forall|t: int|
                    0 <= t < out@.len() ==> (*(#[trigger] out@[t]).0, *out@[t].1) == occupied_seq(
                        self@.take(i as int),
                    )[t],
            decreases CAP - i,
        {
            proof {
                lemma_occupied_seq_take_step(self@, i as int);
                lemma_occupied_seq_len(self@.take(i as int));
                lemma_occupied_seq_len(self@.take(i + 1));
                assert(self@.take(i + 1).drop_last() =~= self@.take(i as int));
            }
            if let Some((key, value)) = &self.slots[i] {
                out.push((key, value));
            }
            i += 1;
        }
        proof {
            assert(self@.take(CAP as int) =~= self@);
        }
        out
    }

    /// References to all keys, visited in index order
    pub fn keys(&self) -> (r: Vec<&K>)
        requires
            self.wf(),
        ensures
            r@.len() == self.spec_len(),
            forall|t: int| 0 <= t < r@.len() ==> *(#[trigger] r@[t]) == occupied_seq(self@)[t].0,
    {
        let entries = self.iter();
        let mut out: Vec<&K> = Vec::new();
        let mut i: usize = 0;
        while i < entries.len()
            invariant
                out@.len() == i,
                i <= entries@.len(),
                forall|t: int|
                    0 <= t < entries@.len() ==> (*(#[trigger] entries@[t]).0, *entries@[t].1)
                        == occupied_seq(self@)[t],
                forall|t: int| 0 <= t < i ==> *(#[trigger] out@[t]) == occupied_seq(self@)[t].0,
            decreases entries@.len() - i,
        {
            out.push(entries[i].0);
            i += 1;
        }
        out
    }

    /// References to all values, visited in index order
    pub fn values(&self) -> (r: Vec<&V>)
        requires
            self.wf(),
        ensures
            r@.len() == self.spec_len(),
            forall|t: int| 0 <= t < r@.len() ==> *(#[trigger] r@[t]) == occupied_seq(self@)[t].1,
    {
        let entries = self.iter();
        let mut out: Vec<&V> = Vec::new();
        let mut i: usize = 0;
        while i < entries.len()
            invariant
                out@.len() == i,
                i <= entries@.len(),
                forall|t: int|
                    0 <= t < entries@.len() ==> (*(#[trigger] entries@[t]).0, *entries@[t].1)
                        == occupied_seq(self@)[t],
                forall|t: int| 0 <= t < i ==> *(#[trigger] out@[t]) == occupied_seq(self@)[t].1,
            decreases entries@.len() - i,
        {
            out.push(entries[i].1);
            i += 1;
        }
        out
    }

    /// The raw slot sequence, gaps included: the serialization boundary.
    ///
    /// The result has exactly `CAP` elements and preserves slot positions.
    pub fn into_slots(self) -> (r: Vec<Option<(K, V)>>)
        ensures
            r@ == self@,
    {
        self.slots
    }

    /// The slot sequence a decoded map holds, given the encoded one: the
    /// first `CAP` slots, padded with trailing empty slots if the encoding
    /// was shorter.
    pub open spec fn spec_from_slots(s: Seq<Option<(K, V)>>) -> Seq<Option<(K, V)>> {
        Seq::new(
            CAP as nat,
            |i: int|
                if i < s.len() {
                    s[i]
                } else {
                    None
                },
        )
    }

    /// Rebuilds a map from a raw slot sequence: the inverse of
    /// [`Self::into_slots`], and the deserialization boundary.
    ///
    /// Slot positions (gaps included) are preserved; a sequence shorter than
    /// `CAP` leaves the trailing slots empty, and one longer than `CAP` is
    /// truncated.  A sequence with duplicate keys is a logic error that is
    /// not detected, exactly as for [`Self::from_raw_array_unchecked`].
    pub fn from_slots(values: Vec<Option<(K, V)>>) -> (r: Self)
        ensures
            r@ == Self::spec_from_slots(values@),
            distinct_keys(values@) ==> r.wf(),
    {
        let ghost input = values@;
        let mut slots = values;
        slots.truncate(CAP);
        proof {
            assert(slots@ =~= Self::spec_from_slots(input).take(slots@.len() as int));
        }
        while slots.len() < CAP
            invariant
                slots@.len() <= CAP,
                slots@.len() >= input.len() || slots@.len() == CAP,
                slots@ == Self::spec_from_slots(input).take(slots@.len() as int),
            decreases CAP - slots@.len(),
        {
            slots.push(None);
            proof {
                assert(slots@ =~= Self::spec_from_slots(input).take(slots@.len() as int));
            }
        }
        proof {
            assert(slots@ =~= Self::spec_from_slots(input));
        }
        PetitMap { slots }
    }

    /// Construct a [`PetitMap`] directly from a full slot sequence, without
    /// checking for duplicates.
    ///
    /// The caller must supply exactly `CAP` slots whose keys are pairwise
    /// distinct, as the precondition states; keys are expected to be unique,
    /// and a map built from duplicate keys behaves unpredictably.
    pub fn from_raw_array_unchecked(values: Vec<Option<(K, V)>>) -> (r: Self)
        requires
            values@.len() == CAP,
            distinct_keys(values@),
        ensures
            r@ == values@,
            r.wf(),
    {
        PetitMap { slots: values }
    }
}

impl<K: PartialEq, V: PartialEq, const CAP: usize> PetitMap<K, V, CAP> {
    /// Are the two [`PetitMap`]s element-for-element identical, in the same order?
    pub fn identical(&self, other: Self) -> (r: bool)
        requires
            self.wf(),
            other.wf(),
            obeys_concrete_eq::<K>(),
            obeys_concrete_eq::<V>(),
        ensures
            r <==> self@ == other@,
    {
        let mut i: usize = 0;
        while i < CAP
            invariant
                self.wf(),
                other.wf(),
                obeys_concrete_eq::<K>(),
                obeys_concrete_eq::<V>(),
                i <= CAP,
                forall|j: int| 0 <= j < i ==> self@[j] == other@[j],
            decreases CAP - i,
        {
            let same = match (&self.slots[i], &other.slots[i]) {
                (None, None) => true,
                (Some((key_a, value_a)), Some((key_b, value_b))) => concrete_eq(key_a, key_b)
                    && concrete_eq(value_a, value_b),
                _ => false,
            };
            if !same {
                return false;
            }
            i += 1;
        }
        proof {
            assert(self@ =~= other@);
        }
        true
    }
}

impl<K: Eq, V: PartialEq, const CAP: usize> PetitMap<K, V, CAP> {
    /// Content equality, indifferent to slot positions and to the declared
    /// capacities: every key present in either map maps to the same value in
    /// both.
    pub open spec fn spec_content_eq<const OTHER_CAP: usize>(
        self,
        other: PetitMap<K, V, OTHER_CAP>,
    ) -> bool {
        forall|k: K| #![trigger self.spec_get(k)] #![trigger other.spec_get(k)]
            self.spec_get(k) == other.spec_get(k)
    }

    /// Tests content equality between the two maps.
    ///
    /// This is order and cap size-independent: every key present in one map
    /// must map to the same value in the other.
    ///
    /// Uses an inefficient O(n^2) algorithm due to minimal trait bounds.
    pub fn content_eq<const OTHER_CAP: usize>(&self, other: &PetitMap<K, V, OTHER_CAP>) -> (r:
        bool)
        requires
            self.wf(),
            other.wf(),
            obeys_concrete_eq::<K>(),
            obeys_concrete_eq::<V>(),
        ensures
            r <==> self.spec_content_eq(*other),
    {
        let mut i: usize = 0;
        while i < CAP
            invariant
                self.wf(),
                other.wf(),
                obeys_concrete_eq::<K>(),
                obeys_concrete_eq::<V>(),
                i <= CAP,
                forall|j: int|
                    0 <= j < i && (#[trigger] self@[j]) is Some ==> other.spec_get((self@[j]->0).0)
                        == Some((self@[j]->0).1),
            decreases CAP - i,
        {
            if let Some((key, value)) = &self.slots[i] {
                proof {
                    self.lemma_key_index(*key, i as int);
                }
                match other.get(key) {
                    Some(other_value) => {
                        if !concrete_eq(value, other_value) {
                            proof {
                                assert(self.spec_get(*key) == Some(*value));
                            }
                            return false;
                        }
                    },
                    None => {
                        return false;
                    },
                }
            }
            i += 1;
        }
        let mut j: usize = 0;
        while j < other.capacity()
            invariant
                self.wf(),
                other.wf(),
                obeys_concrete_eq::<K>(),
                obeys_concrete_eq::<V>(),
                j <= OTHER_CAP,
                forall|t: int|
                    0 <= t < CAP && (#[trigger] self@[t]) is Some ==> other.spec_get((self@[t]->0).0)
                        == Some((self@[t]->0).1),
                forall|t: int|
                    0 <= t < j && (#[trigger] other@[t]) is Some ==> self.spec_contains_key(
                        (other@[t]->0).0,
                    ),
            decreases OTHER_CAP - j,
        {
            if let Some((key, _value)) = &other.slots_ref()[j] {
                if !self.contains_key(key) {
                    proof {
                        other.lemma_key_index(*key, j as int);
                    }
                    return false;
                }
            }
            j += 1;
        }
        proof {
            assert forall|k: K| self.spec_get(k) == other.spec_get(k) by {
                if self.spec_contains_key(k) {
                    let i0 = self.spec_index_of(k);
                    assert(0 <= i0 < CAP && slot_keyed(self@[i0], k));
                    assert(self@[i0] is Some);
                    assert(other.spec_get((self@[i0]->0).0) == Some((self@[i0]->0).1));
                } else {
                    if other.spec_contains_key(k) {
                        let j0 = other.spec_index_of(k);
                        assert(0 <= j0 < OTHER_CAP && slot_keyed(other@[j0], k));
                        assert(other@[j0] is Some);
                        assert(self.spec_contains_key((other@[j0]->0).0));
                        assert(false);
                    }
                }
            }
        }
        true
    }
}

impl<K, V, const CAP: usize> PetitMap<K, V, CAP> {
    /// Read access to the backing store for sibling containers.
    pub(crate) fn slots_ref(&self) -> (r: &Vec<Option<(K, V)>>)
        ensures
            r@ == self@,
    {
        &self.slots
    }
}

impl<K: Eq, V: PartialEq, const CAP: usize, const OTHER_CAP: usize> PartialEq<
    PetitMap<K, V, OTHER_CAP>,
> for PetitMap<K, V, CAP> {
    /// Tests content equality between the two maps; see [`PetitMap::content_eq`].
    ///
    /// A trait method cannot carry this crate's preconditions, so nothing is
    /// known about `==` on maps in verified code; verified callers use
    /// [`PetitMap::content_eq`], whose result is specified.
    fn eq(&self, other: &PetitMap<K, V, OTHER_CAP>) -> bool {
        let my_len = self.slots_ref().len();
        let other_len = other.slots_ref().len();
        let mut i: usize = 0;
        while i < my_len
            invariant
                my_len == self@.len(),
                other_len == other@.len(),
            decreases my_len - i,
        {
            if let Some((key, value)) = &self.slots_ref()[i] {
                let mut found: Option<usize> = None;
                let mut j: usize = 0;
                while j < other_len
                    invariant
                        other_len == other@.len(),
                    decreases other_len - j,
                {
                    let mut hit = false;
                    if let Some((other_key, _other_value)) = &other.slots_ref()[j] {
                        if *key == *other_key {
                            hit = true;
                        }
                    }
                    if hit {
                        found = Some(j);
                        break ;
                    }
                    j += 1;
                }
                let matched = match found {
                    Some(j2) => if j2 < other_len {
                        match &other.slots_ref()[j2] {
                            Some((_other_key, other_value)) => *value == *other_value,
                            None => false,
                        }
                    } else {
                        false
                    },
                    None => false,
                };
                if !matched {
                    return false;
                }
            }
            i += 1;
        }
        let mut j: usize = 0;
        while j < other_len
            invariant
                my_len == self@.len(),
                other_len == other@.len(),
            decreases other_len - j,
        {
            if let Some((other_key, _other_value)) = &other.slots_ref()[j] {
                let mut found = false;
                let mut i2: usize = 0;
                while i2 < my_len
                    invariant
                        my_len == self@.len(),
                    decreases my_len - i2,
                {
                    if let Some((key, _value)) = &self.slots_ref()[i2] {
                        if *other_key == *key {
                            found = true;
                            break ;
                        }
                    }
                    i2 += 1;
                }
                if !found {
                    return false;
                }
            }
            j += 1;
        }
        true
    }
}

impl<K: Eq, V: PartialEq, const CAP: usize, const OTHER_CAP: usize> vstd::std_specs::cmp::PartialEqSpecImpl<
    PetitMap<K, V, OTHER_CAP>,
> for PetitMap<K, V, CAP> {
    open spec fn obeys_eq_spec() -> bool {
        false
    }

    open spec fn eq_spec(&self, other: &PetitMap<K, V, OTHER_CAP>) -> bool {
        self.spec_content_eq(*other)
    }
}

impl<K: Eq, V: Eq, const CAP: usize> Eq for PetitMap<K, V, CAP> {

}


impl<K: Eq, V, const CAP: usize> PetitMap<K, V, CAP> {
    /// The all-empty slot sequence that a fresh map holds.
    pub open spec fn spec_empty() -> Seq<Option<(K, V)>> {
        Seq::new(CAP as nat, |i: int| None)
    }

    /// Constructs a new [`PetitMap`] from a sequence of key value pairs.
    ///
    /// The consumed values will be stored in order; a pair whose key
    /// duplicates an already stored one overwrites the stored value in place.
    ///
    /// Returns an error the moment a genuinely new key arrives while all
    /// slots are full.  The returned error includes both the element that
    /// could not be inserted and a [`PetitMap`] containing all elements up to
    /// that point.
    #[verifier::loop_isolation(false)]
    pub fn try_from_iter(elements: Vec<(K, V)>) -> (r: Result<
        Self,
        CapacityError<(Self, (K, V))>,
    >)
        requires
            obeys_concrete_eq::<K>(),
        ensures
            match r {
                Ok(m) => {
                    &&& m.wf()
                    &&& Some(m@) == insert_all(Self::spec_empty(), elements@)
                },
                Err(e) => {
                    &&& e.0.0.wf()
                    &&& (exists|n: int|
                        {
                            &&& 0 <= n < elements@.len()
                            &&& Some(e.0.0@) == insert_all(
                                Self::spec_empty(),
                                elements@.take(n),
                            )
                            &&& e.0.1 == elements@[n]
                            &&& insert_pair(e.0.0@, #[trigger] elements@[n].0, elements@[n].1)
                                is None
                        })
                    &&& insert_all(Self::spec_empty(), elements@) is None
                },
            },
    {
        let mut map = Self::new();
        proof {
            assert(map@ =~= Self::spec_empty());
        }
        let ghost all = elements@;
        let mut elements = elements;
        let ghost mut done: int = 0;
        while elements.len() > 0
            invariant
                obeys_concrete_eq::<K>(),
                map.wf(),
                0 <= done <= all.len(),
                elements@ == all.skip(done),
                Some(map@) == insert_all(Self::spec_empty(), all.take(done)),
            decreases elements@.len(),
        {
            let pair = elements.remove(0);
            proof {
                assert(pair == all[done]);
                assert(elements@ =~= all.skip(done + 1));
            }
            let (key, value) = pair;
            let ghost before = map@;
            match map.try_insert(key, value) {
                Ok(success) => {
                    proof {
                        match success {
                            SuccesfulMapInsertion::ExtantKey(_old_value, i) => {
                                lemma_insert_pair_extant(before, key, value, i as int);
                            },
                            SuccesfulMapInsertion::NovelKey(i) => {
                                lemma_insert_pair_novel(before, key, value, i as int);
                            },
                        }
                        lemma_insert_all_concat(
                            Self::spec_empty(),
                            all.take(done),
                            seq![all[done]],
                        );
                        assert(seq![all[done]].skip(1) =~= Seq::<(K, V)>::empty());
                        assert(all.take(done) + seq![all[done]] =~= all.take(done + 1));
                        assert(seq![all[done]][0] == all[done]);
                        assert(insert_pair(before, all[done].0, all[done].1) == Some(map@));
                        lemma_insert_all_singleton(before, all[done]);
                        assert(insert_all(before, seq![all[done]]) == Some(map@));
                        assert(insert_all(Self::spec_empty(), all.take(done + 1)) == Some(map@));
                        done = done + 1;
                    }
                },
                Err(failure) => {
                    let CapacityError(rejected) = failure;
                    proof {
                        lemma_count_full(before);
                        lemma_insert_pair_full(before, key, value);
                        assert(rejected == all[done]);
                        assert(insert_pair(map@, all[done].0, all[done].1) is None);
                        // The fold fails on the whole input as well.
                        lemma_insert_all_concat(Self::spec_empty(), all.take(done), all.skip(done));
                        assert(all.take(done) + all.skip(done) =~= all);
                        assert(all.skip(done)[0] == all[done]);
                        assert(insert_all(map@, all.skip(done)) is None);
                        assert(insert_all(Self::spec_empty(), all) is None);
                        assert(exists|n: int|
                            {
                                &&& 0 <= n < all.len()
                                &&& Some(map@) == insert_all(Self::spec_empty(), all.take(n))
                                &&& rejected == all[n]
                                &&& insert_pair(map@, #[trigger] all[n].0, all[n].1) is None
                            }) by {
                            assert(insert_pair(map@, all[done].0, all[done].1) is None);
                        }
                    }
                    return Err(CapacityError((map, rejected)));
                },
            }
        }
        proof {
            assert(all.take(done) =~= all);
        }
        Ok(map)
    }

    /// Inserts multiple new key-value pairs into the map, in order.
    ///
    /// Duplicate keys will overwrite existing values.
    ///
    /// Overflowing the map with a genuinely new key is a caller error, which
    /// the precondition rules out (the insertion fold must succeed); an
    /// unverified caller that does it anyway hits an unconditional runtime
    /// failure.
    pub fn extend(&mut self, elements: Vec<(K, V)>)
        requires
            old(self).wf(),
            obeys_concrete_eq::<K>(),
            insert_all(old(self)@, elements@) is Some,
        ensures
            final(self).wf(),
            Some(final(self)@) == insert_all(old(self)@, elements@),
    {
        let ghost all = elements@;
        let ghost start = old(self)@;
        let mut elements = elements;
        let ghost mut done: int = 0;
        while elements.len() > 0
            invariant
                obeys_concrete_eq::<K>(),
                self.wf(),
                0 <= done <= all.len(),
                elements@ == all.skip(done),
                Some(self@) == insert_all(start, all.take(done)),
                insert_all(start, all) is Some,
            decreases elements@.len(),
        {
            let pair = elements.remove(0);
            proof {
                assert(pair == all[done]);
                assert(elements@ =~= all.skip(done + 1));
                // The tail of the fold succeeds, so this step succeeds.
                lemma_insert_all_concat(start, all.take(done), all.skip(done));
                assert(all.take(done) + all.skip(done) =~= all);
                assert(all.skip(done)[0] == all[done]);
                assert(insert_all(self@, all.skip(done)) is Some);
                if !self.spec_contains_key(pair.0) {
                    lemma_first_empty_from(self@, 0);
                    lemma_count_le_len(self@);
                    lemma_count_full(self@);
                    match first_empty_from(self@, 0) {
                        Some(e) => {
                            assert(self@[e] is None);
                            assert(self.spec_len() < CAP);
                        },
                        None => {
                            assert(insert_pair(self@, pair.0, pair.1) is None);
                            assert(all.skip(done)[0] == pair);
                            assert(insert_all(self@, all.skip(done)) is None);
                            assert(false);
                        },
                    }
                }
            }
            let (key, value) = pair;
            let ghost before = self@;
            let success = self.insert(key, value);
            proof {
                match success {
                    SuccesfulMapInsertion::ExtantKey(_old_value, i) => {
                        lemma_insert_pair_extant(before, key, value, i as int);
                    },
                    SuccesfulMapInsertion::NovelKey(i) => {
                        lemma_insert_pair_novel(before, key, value, i as int);
                    },
                }
                lemma_insert_all_concat(start, all.take(done), seq![all[done]]);
                assert(seq![all[done]].skip(1) =~= Seq::<(K, V)>::empty());
                assert(all.take(done) + seq![all[done]] =~= all.take(done + 1));
                assert(seq![all[done]][0] == all[done]);
                assert(insert_pair(before, all[done].0, all[done].1) == Some(self@));
                lemma_insert_all_singleton(before, all[done]);
                assert(insert_all(before, seq![all[done]]) == Some(self@));
                assert(insert_all(start, all.take(done + 1)) == Some(self@));
                done = done + 1;
            }
        }
        proof {
            assert(all.take(done) =~= all);
        }
    }

    /// Retains only the elements for which the predicate returns false.
    ///
    /// In other words, every pair (k, v) such that f(&k, &v) returns true is
    /// removed, leaving a gap; the entries are visited in index order.
    /// Callers wanting keep semantics must negate their predicate.
    pub fn retain<F: Fn(&K, &V) -> bool>(&mut self, f: F)
        requires
            old(self).wf(),
            forall|k: K, v: V| #[trigger] f.requires((&k, &v)),
        ensures
            final(self).wf(),
            final(self)@.len() == CAP,
            forall|i: int|
                0 <= i < CAP ==> match #[trigger] old(self)@[i] {
                    None => final(self)@[i] is None,
                    Some(p) => {
                        ||| (final(self)@[i] == old(self)@[i] && call_ensures(f, (&p.0, &p.1), false))
                        ||| (final(self)@[i] is None && call_ensures(f, (&p.0, &p.1), true))
                    },
                },
    {
        let mut i: usize = 0;
        while i < CAP
            invariant
                self@.len() == CAP,
                distinct_keys(old(self)@),
                forall|k: K, v: V| #[trigger] f.requires((&k, &v)),
                i <= CAP,
                forall|j: int| i <= j < CAP ==> self@[j] == old(self)@[j],
                forall|j: int|
                    0 <= j < i ==> match #[trigger] old(self)@[j] {
                        None => self@[j] is None,
                        Some(p) => {
                            ||| (self@[j] == old(self)@[j] && call_ensures(f, (&p.0, &p.1), false))
                            ||| (self@[j] is None && call_ensures(f, (&p.0, &p.1), true))
                        },
                    },
            decreases CAP - i,
        {
            let mut drop_it = false;
            if let Some((key, value)) = &self.slots[i] {
                drop_it = f(key, value);
            }
            if drop_it {
                let _ = self.slot_take(i);
            }
            i += 1;
        }
        proof {
            assert forall|a: int, b: int|
                0 <= a < b < CAP && self@[a] is Some && self@[b] is Some implies ((self@[a]->0).0
                != (self@[b]->0).0) by {
                assert(self@[a] == old(self)@[a]);
                assert(self@[b] == old(self)@[b]);
            }
        }
    }

    /// Applies `f` to every stored value, visiting the occupied slots in
    /// index order and replacing each value with the function's result.
    ///
    /// Keys, slot positions and gaps are untouched.
    pub fn values_mut<F: Fn(&V) -> V>(&mut self, f: F)
        requires
            old(self).wf(),
            forall|v: V| #[trigger] f.requires((&v,)),
        ensures
            final(self).wf(),
            final(self)@.len() == CAP,
            forall|i: int|
                0 <= i < CAP ==> match #[trigger] old(self)@[i] {
                    None => final(self)@[i] is None,
                    Some(p) => final(self)@[i] matches Some(q) && q.0 == p.0 && call_ensures(
                        f,
                        (&p.1,),
                        q.1,
                    ),
                },
    {
        let mut i: usize = 0;
        while i < CAP
            invariant
                self@.len() == CAP,
                distinct_keys(old(self)@),
                forall|v: V| #[trigger] f.requires((&v,)),
                i <= CAP,
                forall|j: int| i <= j < CAP ==> self@[j] == old(self)@[j],
                forall|j: int|
                    0 <= j < i ==> match #[trigger] old(self)@[j] {
                        None => self@[j] is None,
                        Some(p) => self@[j] matches Some(q) && q.0 == p.0 && call_ensures(
                            f,
                            (&p.1,),
                            q.1,
                        ),
                    },
            decreases CAP - i,
        {
            let ghost prev = self@;
            match self.slot_take(i) {
                Some(pair) => {
                    let (key, value) = pair;
                    let new_value = f(&value);
                    self.slots.set(i, Some((key, new_value)));
                },
                None => {
                    proof {
                        assert(self@ =~= prev);
                    }
                },
            }
            i += 1;
        }
        proof {
            assert forall|a: int, b: int|
                0 <= a < b < CAP && self@[a] is Some && self@[b] is Some implies ((self@[a]->0).0
                != (self@[b]->0).0) by {
                assert(old(self)@[a] is Some && old(self)@[b] is Some);
            }
        }
    }

    /// Converts the map into a consuming cursor over its entries.
    pub fn into_iter(self) -> (r: PetitMapIter<K, V, CAP>)
        ensures
            r.spec_map() == self,
            r.spec_cursor() == 0,
    {
        PetitMapIter { map: self, cursor: 0 }
    }
}

/// A consuming cursor for [`PetitMap`]: each step removes and yields the
/// entry at the lowest occupied index not yet visited.
#[derive(Clone, Debug)]
pub struct PetitMapIter<K, V, const CAP: usize> {
    pub(crate) map: PetitMap<K, V, CAP>,
    pub(crate) cursor: usize,
}

impl<K, V, const CAP: usize> PetitMapIter<K, V, CAP> {
    /// The map still held by the cursor.
    pub closed spec fn spec_map(self) -> PetitMap<K, V, CAP> {
        self.map
    }

    /// The next index the cursor will visit.
    pub closed spec fn spec_cursor(self) -> int {
        self.cursor as int
    }

    /// Converts this cursor into the underlying [`PetitMap`]
    ///
    /// Simpler and more direct than draining it.
    pub fn into_map(self) -> (r: PetitMap<K, V, CAP>)
        ensures
            r == self.spec_map(),
    {
        self.map
    }

    /// Removes and returns the next entry in index order, if any.
    ///
    /// When the map is exhausted the cursor parks at `CAP` and keeps
    /// returning `None`.
    pub fn next(&mut self) -> (r: Option<(K, V)>)
        requires
            old(self).spec_map().wf(),
        ensures
            final(self).spec_map().wf(),
            match r {
                Some(kv) => {
                    let i = final(self).spec_cursor() - 1;
                    &&& old(self).spec_cursor() <= i < CAP
                    &&& old(self).spec_map()@[i] == Some(kv)
                    &&& (forall|j: int|
                        old(self).spec_cursor() <= j < i ==> old(self).spec_map()@[j] is None)
                    &&& final(self).spec_map()@ == old(self).spec_map()@.update(i, None::<(K, V)>)
                },
                None => {
                    &&& (forall|j: int|
                        old(self).spec_cursor() <= j < CAP ==> old(self).spec_map()@[j] is None)
                    &&& final(self).spec_map() == old(self).spec_map()
                    &&& final(self).spec_cursor() == CAP
                },
            },
    {
        match self.map.next_filled_index(self.cursor) {
            Some(index) => {
                self.cursor = index + 1;
                match self.map.take_at(index) {
                    Some(pair) => Some(pair),
                    None => vstd::pervasive::unreached(),
                }
            },
            None => {
                self.cursor = CAP;
                None
            },
        }
    }
}


impl<K, V, const CAP: usize> PetitMap<K, V, CAP> {
    /// Capacity invariant: a well-formed map never holds more than `CAP`
    /// entries, and a map that holds exactly `CAP` entries has no empty
    /// slot, so by the contract of `try_insert` a further genuinely new key
    /// is rejected with a `CapacityError` (and by the precondition of
    /// `insert`, passing one is a caller error).
    pub proof fn lemma_capacity_invariant(self)
        requires
            self.wf(),
        ensures
            self.spec_len() <= CAP,
            self.spec_len() == CAP ==> forall|i: int| 0 <= i < CAP ==> self@[i] is Some,
    {
        lemma_count_le_len(self@);
        lemma_count_full(self@);
    }

    /// Uniqueness invariant: in a well-formed map — the state every
    /// constructor establishes and every mutation preserves, as their
    /// contracts ensure — no two occupied slots hold equal keys.
    pub proof fn lemma_uniqueness_invariant(self, i: int, j: int)
        requires
            self.wf(),
            0 <= i < CAP,
            0 <= j < CAP,
            i != j,
            self@[i] is Some,
            self@[j] is Some,
        ensures
            (self@[i]->0).0 != (self@[j]->0).0,
    {
    }

    /// Stable indexing: every mutation of this crate rewrites one slot (its
    /// contract ensures `final(self)@ == old(self)@.update(i, slot)`), and
    /// such a rewrite leaves every other slot exactly as it was.  In
    /// particular a removal never changes the index of any other occupied
    /// entry, and a subsequent insertion may reuse the gap but disturbs no
    /// other index.
    pub proof fn lemma_stable_indexing(
        before: PetitMap<K, V, CAP>,
        after: PetitMap<K, V, CAP>,
        i: int,
        slot: Option<(K, V)>,
    )
        requires
            0 <= i < before@.len(),
            after@ == before@.update(i, slot),
        ensures
            forall|j: int| 0 <= j < before@.len() && j != i ==> after@[j] == before@[j],
    {
    }

    /// Round trip: encoding a map as its raw slot sequence (`into_slots`)
    /// and decoding that sequence (`from_slots`) yields the map back, slot
    /// for slot, internal gaps included.
    pub proof fn lemma_slots_round_trip(self)
        requires
            self@.len() == CAP,
        ensures
            Self::spec_from_slots(self@) == self@,
    {
        assert(Self::spec_from_slots(self@) =~= self@);
    }
}


impl<K, V, const CAP: usize> Default for PetitMap<K, V, CAP> {
    /// Creates an empty map, exactly like [`PetitMap::new`].
    fn default() -> (r: Self)
        ensures
            r.wf(),
            forall|i: int| 0 <= i < CAP ==> r@[i] is None,
            r.spec_len() == 0,
    {
        Self::new()
    }
}

} // verus!
