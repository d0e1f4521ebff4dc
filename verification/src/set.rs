//! A module for the [`PetitSet`] data structure

use crate::map::PetitMap;
use crate::slots::{count_occupied, first_empty_from, lemma_count_full, lemma_count_le_len,
    lemma_count_same_occupancy, lemma_first_empty_from, lemma_occupied_seq_len, occupied_seq,
    slot_keyed};
use crate::CapacityError;
use vstd::laws_eq::obeys_concrete_eq;
use vstd::prelude::*;

verus! {

/// Forgets the unit values of a keyed slot sequence, slot for slot.
pub open spec fn strip_slots<T>(s: Seq<Option<(T, ())>>) -> Seq<Option<T>> {
    Seq::new(
        s.len(),
        |i: int|
            match s[i] {
                Some(p) => Some(p.0),
                None => None,
            },
    )
}

/// Does some slot of `s` hold element `t`?
pub open spec fn seq_contains_elem<T>(s: Seq<Option<T>>, t: T) -> bool {
    exists|i: int| 0 <= i < s.len() && #[trigger] s[i] == Some(t)
}

/// The index of the slot holding element `t` (meaningful when
/// `seq_contains_elem` holds; unique when the elements are distinct).
pub open spec fn seq_index_of_elem<T>(s: Seq<Option<T>>, t: T) -> int {
    choose|i: int| 0 <= i < s.len() && #[trigger] s[i] == Some(t)
}

/// Are the occupied slots of `s` pairwise distinct?
pub open spec fn distinct_elems<T>(s: Seq<Option<T>>) -> bool {
    forall|i: int, j: int|
        0 <= i < j < s.len() && s[i] is Some && s[j] is Some ==> (#[trigger] s[i])->0 != (
        #[trigger] s[j])->0
}

/// One checked insertion into an element slot sequence: a duplicate leaves
/// the sequence unchanged, a novel element fills the first empty slot, and a
/// novel element with no empty slot fails.
pub open spec fn insert_elem<T>(s: Seq<Option<T>>, t: T) -> Option<Seq<Option<T>>> {
    if seq_contains_elem(s, t) {
        Some(s)
    } else {
        match first_empty_from(s, 0) {
            Some(i) => Some(s.update(i, Some(t))),
            None => None,
        }
    }
}

/// Checked insertion of each element of `elems` in order, failing the moment
/// one insertion fails.
pub open spec fn insert_all_elems<T>(s: Seq<Option<T>>, elems: Seq<T>) -> Option<Seq<Option<T>>>
    decreases elems.len(),
{
    if elems.len() == 0 {
        Some(s)
    } else {
        match insert_elem(s, elems[0]) {
            Some(s1) => insert_all_elems(s1, elems.skip(1)),
            None => None,
        }
    }
}

/// The element insertion fold on a single element is one insertion.
pub proof fn lemma_insert_all_elems_singleton<T>(s: Seq<Option<T>>, t: T)
    ensures
        insert_all_elems(s, seq![t]) == insert_elem(s, t),
{
    assert(seq![t][0] == t);
    assert(seq![t].skip(1) =~= Seq::<T>::empty());
    match insert_elem(s, t) {
        Some(s1) => {
            assert(insert_all_elems(s1, seq![t].skip(1)) == Some(s1));
        },
        None => {
        },
    }
}

/// The element insertion fold splits over concatenation.
pub proof fn lemma_insert_all_elems_concat<T>(s: Seq<Option<T>>, a: Seq<T>, b: Seq<T>)
    ensures
        insert_all_elems(s, a + b) == (match insert_all_elems(s, a) {
            Some(s1) => insert_all_elems(s1, b),
            None => None,
        }),
    decreases a.len(),
{
    if a.len() == 0 {
        assert(a + b =~= b);
    } else {
        assert((a + b)[0] == a[0]);
        assert((a + b).skip(1) =~= a.skip(1) + b);
        match insert_elem(s, a[0]) {
            Some(s1) => {
                lemma_insert_all_elems_concat(s1, a.skip(1), b);
            },
            None => {
            },
        }
    }
}

/// For a novel element, filling the first empty slot is what `insert_elem`
/// does.
pub proof fn lemma_insert_elem_novel<T>(s: Seq<Option<T>>, t: T, i: int)
    requires
        !seq_contains_elem(s, t),
        0 <= i < s.len(),
        s[i] is None,
        forall|j: int| 0 <= j < i ==> s[j] is Some,
    ensures
        insert_elem(s, t) == Some(s.update(i, Some(t))),
{
    lemma_first_empty_from(s, 0);
    match first_empty_from(s, 0) {
        Some(e) => {
            if e < i {
            } else if e > i {
            }
        },
        None => {
        },
    }
}

/// For a novel element and a full slot sequence, `insert_elem` fails.
pub proof fn lemma_insert_elem_full<T>(s: Seq<Option<T>>, t: T)
    requires
        !seq_contains_elem(s, t),
        forall|j: int| 0 <= j < s.len() ==> s[j] is Some,
    ensures
        insert_elem(s, t) is None,
{
    lemma_first_empty_from(s, 0);
}

/// A set-like data structure with a fixed maximum size
///
/// This data structure does not require the `Hash` or `Ord` traits,
/// and instead uses linear iteration to find entries.
/// Iteration order is guaranteed to be stable, and elements are not
/// re-compressed upon removal.
///
/// Principally, this data structure should be used for relatively small sets,
/// where iteration performance, stable-order and uniqueness
/// are more important than insertion or look-up speed.
/// Iteration, insertion and checking whether an element is in the set are
/// O(CAP); indexing into a particular element is O(1), as is removing an
/// element at a specific index.
///
/// The maximum size of this type is given by the const-generic type parameter
/// `CAP`; entries in every well-formed set are guaranteed to be unique.  It
/// is built as a [`PetitMap`] whose values are all unit.
#[derive(Clone, Debug, Hash)]
pub struct PetitSet<T: Eq, const CAP: usize> {
    pub(crate) map: PetitMap<T, (), CAP>,
}

impl<T: Eq, const CAP: usize> View for PetitSet<T, CAP> {
    type V = Seq<Option<T>>;

    closed spec fn view(&self) -> Seq<Option<T>> {
        strip_slots(self.map@)
    }
}

/// The result of a successful [`PetitSet`] insertion operation
#[derive(Debug, PartialEq, Eq, Structural, Clone, Copy)]
pub enum SuccesfulSetInsertion {
    /// This is a new element, stored at the provided index
    NovelElement(usize),
    /// The element already existed, at the provided index
    ExtantElement(usize),
}

impl<T: Eq, const CAP: usize> PetitSet<T, CAP> {
    /// Well-formedness: exactly `CAP` slots, occupied slots pairwise
    /// distinct.
    pub open spec fn wf(self) -> bool {
        &&& self@.len() == CAP
        &&& distinct_elems(self@)
    }

    /// Does some slot hold element `t`?
    pub open spec fn spec_contains(self, t: T) -> bool {
        seq_contains_elem(self@, t)
    }

    /// The index of the slot holding element `t` (meaningful when
    /// `spec_contains(t)` holds; unique in a well-formed set).
    pub open spec fn spec_index_of(self, t: T) -> int {
        seq_index_of_elem(self@, t)
    }

    /// The number of occupied slots.
    pub open spec fn spec_len(self) -> nat {
        count_occupied(self@)
    }

    /// The elements of the set, as a mathematical set.
    pub open spec fn spec_elems(self) -> Set<T> {
        Set::new(|t: T| self.spec_contains(t))
    }

    /// The occupancy of a set's slots matches its inner map's, slot by slot,
    /// and well-formedness carries across the composition.
    pub(crate) proof fn lemma_view_bridge(self)
        ensures
            self@.len() == self.map@.len(),
            count_occupied(self@) == count_occupied(self.map@),
            forall|i: int|
                0 <= i < self@.len() ==> (self@[i] is Some <==> (#[trigger] self.map@[i]) is Some),
            forall|i: int, t: T|
                0 <= i < self@.len() ==> (self@[i] == Some(t) <==> #[trigger] slot_keyed(
                    self.map@[i],
                    t,
                )),
            self.wf() <==> self.map.wf(),
    {
        lemma_count_same_occupancy(self@, self.map@);
        assert forall|i: int, t: T|
            0 <= i < self@.len() implies (self@[i] == Some(t) <==> slot_keyed(self.map@[i], t)) by {
            match self.map@[i] {
                Some(p) => {
                    assert(p.1 == ());
                    assert(self@[i] == Some(p.0));
                },
                None => {
                    assert(self@[i] is None);
                },
            }
        }
        if self@.len() == CAP {
            if distinct_elems(self@) {
                assert forall|i: int, j: int|
                    0 <= i < j < CAP && self.map@[i] is Some && self.map@[j] is Some implies ((
                self.map@[i]->0).0 != (self.map@[j]->0).0) by {
                    assert(self@[i] == Some((self.map@[i]->0).0));
                    assert(self@[j] == Some((self.map@[j]->0).0));
                }
            }
            if crate::slots::distinct_keys(self.map@) {
                assert forall|i: int, j: int|
                    0 <= i < j < CAP && self@[i] is Some && self@[j] is Some implies (self@[i]->0
                != self@[j]->0) by {
                    assert(slot_keyed(self.map@[i], self@[i]->0));
                    assert(slot_keyed(self.map@[j], self@[j]->0));
                }
            }
        }
    }

    /// In a well-formed set, a slot holding `t` is the unique such slot.
    pub proof fn lemma_elem_index(self, t: T, i: int)
        requires
            self.wf(),
            0 <= i < CAP,
            self@[i] == Some(t),
        ensures
            self.spec_contains(t),
            self.spec_index_of(t) == i,
    {
        self.lemma_view_bridge();
        assert(self.spec_contains(t));
        let j = self.spec_index_of(t);
        assert(0 <= j < self@.len() && self@[j] == Some(t));
        if j != i {
            assert(slot_keyed(self.map@[i], t) && slot_keyed(self.map@[j], t));
            assert(false);
        }
    }

    /// Create a new empty [`PetitSet`].
    ///
    /// The capacity is given by the generic parameter `CAP`.
    pub fn new() -> (r: Self)
        ensures
            r.wf(),
            forall|i: int| 0 <= i < CAP ==> r@[i] is None,
            r.spec_len() == 0,
    {
        let r = PetitSet { map: PetitMap::new() };
        proof {
            r.lemma_view_bridge();
        }
        r
    }

    /// Returns the current number of elements in the [`PetitSet`]
    pub fn len(&self) -> (r: usize)
        requires
            self.wf(),
        ensures
            r == self.spec_len(),
    {
        proof {
            self.lemma_view_bridge();
        }
        self.map.len()
    }

    /// Return the capacity of the [`PetitSet`]
    pub fn capacity(&self) -> (r: usize)
        ensures
            r == CAP,
    {
        self.map.capacity()
    }

    /// Are there exactly 0 elements in the [`PetitSet`]?
    pub fn is_empty(&self) -> (r: bool)
        requires
            self.wf(),
        ensures
            r <==> self.spec_len() == 0,
    {
        self.len() == 0
    }

    /// References to the elements of the [`PetitSet`], visited in index
    /// order.
    pub fn iter(&self) -> (r: Vec<&T>)
        requires
            self.wf(),
        ensures
            r@.len() == self.spec_len(),
            forall|t: int| 0 <= t < r@.len() ==> *(#[trigger] r@[t]) == occupied_seq(self@)[t],
    {
        proof {
            self.lemma_view_bridge();
            lemma_occupied_strip(self.map@);
            lemma_occupied_seq_len(self.map@);
        }
        self.map.keys()
    }

    /// Returns the index of the next filled slot at or after `cursor`, if any
    ///
    /// Returns None if the cursor is larger than CAP
    pub fn next_filled_index(&self, cursor: usize) -> (r: Option<usize>)
        requires
            self.wf(),
        ensures
            match r {
                Some(i) => cursor <= i < CAP && self@[i as int] is Some && (forall|j: int|
                    cursor <= j < i ==> self@[j] is None),
                None => forall|j: int| cursor <= j < CAP ==> self@[j] is None,
            },
    {
        proof {
            self.lemma_view_bridge();
        }
        self.map.next_filled_index(cursor)
    }

    /// Returns the index of the next empty slot at or after `cursor`, if any
    ///
    /// Returns None if the cursor is larger than CAP
    pub fn next_empty_index(&self, cursor: usize) -> (r: Option<usize>)
        requires
            self.wf(),
        ensures
            match r {
                Some(i) => cursor <= i < CAP && self@[i as int] is None && (forall|j: int|
                    cursor <= j < i ==> self@[j] is Some),
                None => forall|j: int| cursor <= j < CAP ==> self@[j] is Some,
            },
    {
        proof {
            self.lemma_view_bridge();
        }
        self.map.next_empty_index(cursor)
    }

    /// Returns a reference to the element at the provided index
    ///
    /// Returns `Some(&T)` if the index is in-bounds and has an element
    pub fn get_at(&self, index: usize) -> (r: Option<&T>)
        requires
            self.wf(),
            index < CAP,
        ensures
            match r {
                Some(e) => self@[index as int] == Some(*e),
                None => self@[index as int] is None,
            },
    {
        proof {
            self.lemma_view_bridge();
        }
        match self.map.get_at(index) {
            Some((element, _unit)) => Some(element),
            None => None,
        }
    }

    /// Returns a mutable reference to the element at the provided index
    ///
    /// Returns `Some(&mut T)` if the index is in-bounds and has an element.
    /// Writing an element through the returned reference that duplicates
    /// another stored element is a logic error, exactly as for the unchecked
    /// constructors.
    pub fn get_at_mut(&mut self, index: usize) -> (r: Option<&mut T>)
        requires
            old(self).wf(),
            index < CAP,
        ensures
            match r {
                Some(e) => {
                    &&& old(self)@[index as int] == Some(*e)
                    &&& final(self)@ =~= old(self)@.update(index as int, Some(*final(e)))
                },
                None => {
                    &&& old(self)@[index as int] is None
                    &&& final(self)@ =~= old(self)@
                },
            },
    {
        proof {
            old(self).lemma_view_bridge();
        }
        match self.map.get_at_mut(index) {
            Some((element, _unit)) => Some(element),
            None => None,
        }
    }

    /// Returns the index for the provided element, if it exists in the set
    ///
    /// The scan runs in index order, so the returned index is the first
    /// match; in a well-formed set it is the only one.
    pub fn find(&self, element: &T) -> (r: Option<usize>)
        requires
            self.wf(),
            obeys_concrete_eq::<T>(),
        ensures
            match r {
                Some(i) => i < CAP && self@[i as int] == Some(*element) && (forall|j: int|
                    0 <= j < i ==> self@[j] != Some(*element)),
                None => !self.spec_contains(*element),
            },
    {
        proof {
            self.lemma_view_bridge();
        }
        self.map.find(element)
    }

    /// Is the provided element in the set?
    pub fn contains(&self, element: &T) -> (r: bool)
        requires
            self.wf(),
            obeys_concrete_eq::<T>(),
        ensures
            r <==> self.spec_contains(*element),
    {
        proof {
            self.lemma_view_bridge();
        }
        self.map.contains_key(element)
    }
}

/// The compacted entries of a unit-valued slot sequence are its compacted
/// keys.
proof fn lemma_occupied_strip<T>(s: Seq<Option<(T, ())>>)
    ensures
        occupied_seq(strip_slots(s)).len() == occupied_seq(s).len(),
        forall|t: int|
            0 <= t < occupied_seq(s).len() ==> #[trigger] occupied_seq(strip_slots(s))[t]
                == occupied_seq(s)[t].0,
    decreases s.len(),
{
    if s.len() > 0 {
        lemma_occupied_strip(s.drop_last());
        assert(strip_slots(s).drop_last() =~= strip_slots(s.drop_last()));
        assert(strip_slots(s).last() == (match s.last() {
            Some(p) => Some(p.0),
            None => None,
        }));
    }
}


impl<T: Eq, const CAP: usize> PetitSet<T, CAP> {
    /// Attempt to insert a new element to the set in the first available slot.
    ///
    /// A duplicate element leaves the set unchanged and reports the index at
    /// which the element is stored; a novel element occupies the
    /// lowest-index empty slot.  A novel element arriving at a full set is
    /// rejected with a [`CapacityError`] carrying it.
    pub fn try_insert(&mut self, element: T) -> (r: Result<
        SuccesfulSetInsertion,
        CapacityError<T>,
    >)
        requires
            old(self).wf(),
            obeys_concrete_eq::<T>(),
        ensures
            final(self).wf(),
            match r {
                Ok(SuccesfulSetInsertion::ExtantElement(i)) => {
                    &&& i < CAP
                    &&& old(self)@[i as int] == Some(element)
                    &&& old(self).spec_index_of(element) == i
                    &&& final(self)@ =~= old(self)@
                    &&& final(self).spec_len() == old(self).spec_len()
                },
                Ok(SuccesfulSetInsertion::NovelElement(i)) => {
                    &&& i < CAP
                    &&& !old(self).spec_contains(element)
                    &&& old(self)@[i as int] is None
                    &&& (forall|j: int| 0 <= j < i ==> old(self)@[j] is Some)
                    &&& final(self)@ =~= old(self)@.update(i as int, Some(element))
                    &&& final(self).spec_len() == old(self).spec_len() + 1
                },
                Err(e) => {
                    &&& e == CapacityError(element)
                    &&& !old(self).spec_contains(element)
                    &&& old(self).spec_len() == CAP
                    &&& *final(self) == *old(self)
                },
            },
            final(self).spec_contains(element) || r is Err,
    {
        proof {
            old(self).lemma_view_bridge();
        }
        let ghost old_map = self.map;
        let ghost old_view = self@;
        let r = match self.map.try_insert(element, ()) {
            Ok(crate::map::SuccesfulMapInsertion::ExtantKey(_unit, i)) => Ok(
                SuccesfulSetInsertion::ExtantElement(i),
            ),
            Ok(crate::map::SuccesfulMapInsertion::NovelKey(i)) => Ok(
                SuccesfulSetInsertion::NovelElement(i),
            ),
            Err(CapacityError(pair)) => Err(CapacityError(pair.0)),
        };
        proof {
            self.lemma_view_bridge();
            match r {
                Ok(SuccesfulSetInsertion::ExtantElement(i)) => {
                    assert(old_view[i as int] == Some(element));
                    old(self).lemma_elem_index(element, i as int);
                    assert(self@ =~= old_view);
                    assert(self.spec_contains(element));
                },
                Ok(SuccesfulSetInsertion::NovelElement(i)) => {
                    assert(self@ =~= old_view.update(i as int, Some(element)));
                    assert(self@[i as int] == Some(element));
                    assert(self.spec_contains(element));
                },
                Err(_) => {
                    assert(self.map == old_map);
                    assert(*self =~= *old(self));
                },
            }
        }
        r
    }

    /// Insert a new element to the set in the first available slot
    ///
    /// Reports whether the element was novel or already present, and at
    /// which index.
    ///
    /// Overflowing the set with a novel element is a caller error, which the
    /// precondition rules out; an unverified caller that does it anyway hits
    /// an unconditional runtime failure.
    pub fn insert(&mut self, element: T) -> (r: SuccesfulSetInsertion)
        requires
            old(self).wf(),
            obeys_concrete_eq::<T>(),
            old(self).spec_contains(element) || old(self).spec_len() < CAP,
        ensures
            final(self).wf(),
            final(self).spec_contains(element),
            match r {
                SuccesfulSetInsertion::ExtantElement(i) => {
                    &&& i < CAP
                    &&& old(self)@[i as int] == Some(element)
                    &&& old(self).spec_index_of(element) == i
                    &&& final(self)@ =~= old(self)@
                    &&& final(self).spec_len() == old(self).spec_len()
                },
                SuccesfulSetInsertion::NovelElement(i) => {
                    &&& i < CAP
                    &&& !old(self).spec_contains(element)
                    &&& old(self)@[i as int] is None
                    &&& (forall|j: int| 0 <= j < i ==> old(self)@[j] is Some)
                    &&& final(self)@ =~= old(self)@.update(i as int, Some(element))
                    &&& final(self).spec_len() == old(self).spec_len() + 1
                },
            },
    {
        match self.try_insert(element) {
            Ok(success) => success,
            Err(_) => vstd::pervasive::unreached(),
        }
    }

    /// Inserts multiple new elements to the set, in order. Duplicate
    /// elements are discarded.
    ///
    /// Overflowing the set with a novel element is a caller error, which the
    /// precondition rules out (the insertion fold must succeed); an
    /// unverified caller that does it anyway hits an unconditional runtime
    /// failure.
    pub fn extend(&mut self, elements: Vec<T>)
        requires
            old(self).wf(),
            obeys_concrete_eq::<T>(),
            insert_all_elems(old(self)@, elements@) is Some,
        ensures
            final(self).wf(),
            Some(final(self)@) == insert_all_elems(old(self)@, elements@),
    {
        match self.try_extend(elements) {
            Ok(()) => {
            },
            Err(_) => vstd::pervasive::unreached(),
        }
    }

    /// Inserts multiple new elements to the set, in order. Duplicate
    /// elements are discarded.
    ///
    /// Stops with a [`CapacityError`] carrying the first novel element that
    /// arrives while the set is full; elements inserted up to that point are
    /// kept.
    #[verifier::loop_isolation(false)]
    pub fn try_extend(&mut self, elements: Vec<T>) -> (r: Result<(), CapacityError<T>>)
        requires
            old(self).wf(),
            obeys_concrete_eq::<T>(),
        ensures
            final(self).wf(),
            match r {
                Ok(()) => Some(final(self)@) == insert_all_elems(old(self)@, elements@),
                Err(e) => {
                    &&& (exists|n: int|
                        {
                            &&& 0 <= n < elements@.len()
                            &&& Some(final(self)@) == insert_all_elems(
                                old(self)@,
                                elements@.take(n),
                            )
                            &&& e == CapacityError(#[trigger] elements@[n])
                            &&& insert_elem(final(self)@, elements@[n]) is None
                        })
                    &&& insert_all_elems(old(self)@, elements@) is None
                },
            },
    {
        let ghost all = elements@;
        let ghost start = old(self)@;
        let mut elements = elements;
        let ghost mut done: int = 0;
        while elements.len() > 0
            invariant
                obeys_concrete_eq::<T>(),
                self.wf(),
                0 <= done <= all.len(),
                elements@ == all.skip(done),
                Some(self@) == insert_all_elems(start, all.take(done)),
            decreases elements@.len(),
        {
            let element = elements.remove(0);
            proof {
                assert(element == all[done]);
                assert(elements@ =~= all.skip(done + 1));
            }
            let ghost before = self@;
            match self.try_insert(element) {
                Ok(success) => {
                    proof {
                        match success {
                            SuccesfulSetInsertion::ExtantElement(_i) => {
                                assert(seq_contains_elem(before, all[done]));
                                assert(insert_elem(before, all[done]) == Some(before));
                                assert(self@ == before);
                            },
                            SuccesfulSetInsertion::NovelElement(i) => {
                                lemma_insert_elem_novel(before, all[done], i as int);
                            },
                        }
                        assert(insert_elem(before, all[done]) == Some(self@));
                        lemma_insert_all_elems_concat(start, all.take(done), seq![all[done]]);
                        assert(all.take(done) + seq![all[done]] =~= all.take(done + 1));
                        lemma_insert_all_elems_singleton(before, all[done]);
                        assert(insert_all_elems(before, seq![all[done]]) == Some(self@));
                        assert(insert_all_elems(start, all.take(done + 1)) == Some(self@));
                        done = done + 1;
                    }
                },
                Err(failure) => {
                    proof {
                        lemma_count_full(before);
                        lemma_insert_elem_full(before, all[done]);
                        lemma_insert_all_elems_concat(start, all.take(done), all.skip(done));
                        assert(all.take(done) + all.skip(done) =~= all);
                        assert(all.skip(done)[0] == all[done]);
                        assert(insert_all_elems(self@, all.skip(done)) is None);
                        assert(insert_all_elems(start, all) is None);
                        assert(exists|n: int|
                            {
                                &&& 0 <= n < all.len()
                                &&& Some(self@) == insert_all_elems(start, all.take(n))
                                &&& failure == CapacityError(#[trigger] all[n])
                                &&& insert_elem(self@, all[n]) is None
                            }) by {
                            assert(insert_elem(self@, all[done]) is None);
                        }
                    }
                    return Err(failure);
                },
            }
        }
        proof {
            assert(all.take(done) =~= all);
        }
        Ok(())
    }

    /// Removes all elements from the set without de-allocation
    pub fn clear(&mut self)
        requires
            old(self).wf(),
        ensures
            final(self).wf(),
            forall|i: int| 0 <= i < CAP ==> final(self)@[i] is None,
            final(self).spec_len() == 0,
    {
        proof {
            old(self).lemma_view_bridge();
        }
        self.map.clear();
        proof {
            self.lemma_view_bridge();
        }
    }

    /// Removes the element from the set, if it exists
    ///
    /// Returns `Some(index)` if the element was found, or `None` if no
    /// matching element is found
    pub fn remove(&mut self, element: &T) -> (r: Option<usize>)
        requires
            old(self).wf(),
            obeys_concrete_eq::<T>(),
        ensures
            final(self).wf(),
            match r {
                Some(i) => {
                    &&& i < CAP
                    &&& i == old(self).spec_index_of(*element)
                    &&& old(self)@[i as int] == Some(*element)
                    &&& final(self)@ =~= old(self)@.update(i as int, None::<T>)
                    &&& final(self).spec_len() == old(self).spec_len() - 1
                    &&& !final(self).spec_contains(*element)
                },
                None => {
                    &&& !old(self).spec_contains(*element)
                    &&& *final(self) == *old(self)
                },
            },
    {
        proof {
            old(self).lemma_view_bridge();
        }
        let ghost old_map = self.map;
        let r = self.map.remove(element);
        proof {
            self.lemma_view_bridge();
            match r {
                Some(i) => {
                    old(self).lemma_elem_index(*element, i as int);
                    assert(self@ =~= old(self)@.update(i as int, None::<T>));
                    if self.spec_contains(*element) {
                        let w = seq_index_of_elem(self@, *element);
                        assert(self@[w] == Some(*element));
                        assert(slot_keyed(self.map@[w], *element));
                        assert(false);
                    }
                },
                None => {
                    assert(self.map == old_map);
                    assert(*self =~= *old(self));
                },
            }
        }
        r
    }

    /// Removes the element at the provided index
    ///
    /// Returns true if an element was found
    pub fn remove_at(&mut self, index: usize) -> (r: bool)
        requires
            old(self).wf(),
            index < CAP,
        ensures
            final(self).wf(),
            r <==> old(self)@[index as int] is Some,
            final(self)@ =~= old(self)@.update(index as int, None::<T>),
            final(self).spec_len() == old(self).spec_len() - (if r {
                1int
            } else {
                0int
            }),
    {
        proof {
            old(self).lemma_view_bridge();
        }
        let r = self.map.remove_at(index);
        proof {
            self.lemma_view_bridge();
            assert(self@ =~= old(self)@.update(index as int, None::<T>));
        }
        r
    }

    /// Removes an element from the set, if it exists, returning
    /// both the value that compared equal and the index at which
    /// it was stored.
    pub fn take(&mut self, element: &T) -> (r: Option<(usize, T)>)
        requires
            old(self).wf(),
            obeys_concrete_eq::<T>(),
        ensures
            final(self).wf(),
            match r {
                Some(it) => {
                    &&& it.0 < CAP
                    &&& it.0 == old(self).spec_index_of(*element)
                    &&& old(self)@[it.0 as int] == Some(it.1)
                    &&& it.1 == *element
                    &&& final(self)@ =~= old(self)@.update(it.0 as int, None::<T>)
                    &&& final(self).spec_len() == old(self).spec_len() - 1
                    &&& !final(self).spec_contains(*element)
                },
                None => {
                    &&& !old(self).spec_contains(*element)
                    &&& *final(self) == *old(self)
                },
            },
    {
        proof {
            old(self).lemma_view_bridge();
        }
        let ghost old_map = self.map;
        let r = match self.map.take(element) {
            Some((index, pair)) => Some((index, pair.0)),
            None => None,
        };
        proof {
            self.lemma_view_bridge();
            if r is Some {
                let it = r->0;
                old(self).lemma_elem_index(*element, it.0 as int);
                assert(self@ =~= old(self)@.update(it.0 as int, None::<T>));
                if self.spec_contains(*element) {
                    let w = seq_index_of_elem(self@, *element);
                    assert(self@[w] == Some(*element));
                    assert(slot_keyed(self.map@[w], *element));
                    assert(false);
                }
            } else {
                assert(self.map == old_map);
                assert(*self =~= *old(self));
            }
        }
        r
    }

    /// Removes the element at the provided index
    ///
    /// Returns `Some(T)` if an element was found at that index, or `None` if
    /// no element was there.
    pub fn take_at(&mut self, index: usize) -> (r: Option<T>)
        requires
            old(self).wf(),
            index < CAP,
        ensures
            final(self).wf(),
            match r {
                Some(e) => old(self)@[index as int] == Some(e),
                None => old(self)@[index as int] is None,
            },
            final(self)@ =~= old(self)@.update(index as int, None::<T>),
            final(self).spec_len() == old(self).spec_len() - (if r is Some {
                1int
            } else {
                0int
            }),
    {
        proof {
            old(self).lemma_view_bridge();
        }
        let r = match self.map.take_at(index) {
            Some(pair) => Some(pair.0),
            None => None,
        };
        proof {
            self.lemma_view_bridge();
            assert(self@ =~= old(self)@.update(index as int, None::<T>));
        }
        r
    }

    /// Insert a new element to the set at the provided index
    ///
    /// If a matching element already existed in the set, it will be moved to
    /// the supplied index; whatever was previously there will be moved to
    /// the matching element's original index.
    ///
    /// Otherwise the element is written to the supplied index, and
    /// `Some(T)` is returned if an unrelated element was evicted by this.
    pub fn insert_at(&mut self, element: T, index: usize) -> (r: Option<T>)
        requires
            old(self).wf(),
            obeys_concrete_eq::<T>(),
            index < CAP,
        ensures
            final(self).wf(),
            if old(self).spec_contains(element) {
                {
                    &&& r is None
                    &&& final(self)@ =~= old(self)@.update(
                        old(self).spec_index_of(element),
                        old(self)@[index as int],
                    ).update(index as int, old(self)@[old(self).spec_index_of(element)])
                    &&& final(self).spec_len() == old(self).spec_len()
                }
            } else {
                {
                    &&& r == old(self)@[index as int]
                    &&& final(self)@ =~= old(self)@.update(index as int, Some(element))
                    &&& final(self).spec_len() == old(self).spec_len() + (if r is Some {
                        0int
                    } else {
                        1int
                    })
                }
            },
    {
        proof {
            old(self).lemma_view_bridge();
        }
        let r = match self.map.insert_at(element, (), index) {
            Some(pair) => Some(pair.0),
            None => None,
        };
        proof {
            self.lemma_view_bridge();
            if old(self).spec_contains(element) {
                let i0 = old(self).spec_index_of(element);
                assert(slot_keyed(old(self).map@[i0], element));
                assert(old(self).map.spec_index_of(element) == i0) by {
                    old(self).map.lemma_key_index(element, i0);
                }
                assert(self@ =~= old(self)@.update(i0, old(self)@[index as int]).update(
                    index as int,
                    old(self)@[i0],
                ));
            } else {
                if old(self).map.spec_contains_key(element) {
                    let w = crate::slots::seq_index_of(old(self).map@, element);
                    assert(slot_keyed(old(self).map@[w], element));
                    assert(old(self)@[w] == Some(element));
                    assert(false);
                }
                assert(self@ =~= old(self)@.update(index as int, Some(element)));
            }
        }
        r
    }
}


impl<T: Eq, const CAP: usize> PetitSet<T, CAP> {
    /// The all-empty slot sequence that a fresh set holds.
    pub open spec fn spec_empty() -> Seq<Option<T>> {
        Seq::new(CAP as nat, |i: int| None)
    }

    /// Constructs a new [`PetitSet`] from a sequence of elements.
    ///
    /// The consumed values will be stored in order, with duplicate elements
    /// discarded.
    ///
    /// Returns an error the moment a genuinely new element arrives while all
    /// slots are full.  The returned error includes both the element that
    /// could not be inserted and a [`PetitSet`] containing all elements up
    /// to that point.
    #[verifier::loop_isolation(false)]
    pub fn try_from_iter(elements: Vec<T>) -> (r: Result<Self, CapacityError<(Self, T)>>)
        requires
            obeys_concrete_eq::<T>(),
        ensures
            match r {
                Ok(s) => {
                    &&& s.wf()
                    &&& Some(s@) == insert_all_elems(Self::spec_empty(), elements@)
                },
                Err(e) => {
                    &&& e.0.0.wf()
                    &&& (exists|n: int|
                        {
                            &&& 0 <= n < elements@.len()
                            &&& Some(e.0.0@) == insert_all_elems(
                                Self::spec_empty(),
                                elements@.take(n),
                            )
                            &&& e.0.1 == #[trigger] elements@[n]
                            &&& insert_elem(e.0.0@, elements@[n]) is None
                        })
                    &&& insert_all_elems(Self::spec_empty(), elements@) is None
                },
            },
    {
        let mut set = Self::new();
        proof {
            assert(set@ =~= Self::spec_empty());
        }
        let ghost all = elements@;
        let mut elements = elements;
        let ghost mut done: int = 0;
        while elements.len() > 0
            invariant
                obeys_concrete_eq::<T>(),
                set.wf(),
                0 <= done <= all.len(),
                elements@ == all.skip(done),
                Some(set@) == insert_all_elems(Self::spec_empty(), all.take(done)),
            decreases elements@.len(),
        {
            let element = elements.remove(0);
            proof {
                assert(element == all[done]);
                assert(elements@ =~= all.skip(done + 1));
            }
            let ghost before = set@;
            match set.try_insert(element) {
                Ok(success) => {
                    proof {
                        match success {
                            SuccesfulSetInsertion::ExtantElement(_i) => {
                                assert(seq_contains_elem(before, all[done]));
                                assert(insert_elem(before, all[done]) == Some(before));
                                assert(set@ == before);
                            },
                            SuccesfulSetInsertion::NovelElement(i) => {
                                lemma_insert_elem_novel(before, all[done], i as int);
                            },
                        }
                        assert(insert_elem(before, all[done]) == Some(set@));
                        lemma_insert_all_elems_concat(
                            Self::spec_empty(),
                            all.take(done),
                            seq![all[done]],
                        );
                        assert(all.take(done) + seq![all[done]] =~= all.take(done + 1));
                        lemma_insert_all_elems_singleton(before, all[done]);
                        assert(insert_all_elems(before, seq![all[done]]) == Some(set@));
                        assert(insert_all_elems(Self::spec_empty(), all.take(done + 1)) == Some(
                            set@,
                        ));
                        done = done + 1;
                    }
                },
                Err(failure) => {
                    let CapacityError(rejected) = failure;
                    proof {
                        lemma_count_full(before);
                        lemma_insert_elem_full(before, all[done]);
                        lemma_insert_all_elems_concat(
                            Self::spec_empty(),
                            all.take(done),
                            all.skip(done),
                        );
                        assert(all.take(done) + all.skip(done) =~= all);
                        assert(all.skip(done)[0] == all[done]);
                        assert(insert_all_elems(set@, all.skip(done)) is None);
                        assert(insert_all_elems(Self::spec_empty(), all) is None);
                        assert(exists|n: int|
                            {
                                &&& 0 <= n < all.len()
                                &&& Some(set@) == insert_all_elems(
                                    Self::spec_empty(),
                                    all.take(n),
                                )
                                &&& rejected == #[trigger] all[n]
                                &&& insert_elem(set@, all[n]) is None
                            }) by {
                            assert(insert_elem(set@, all[done]) is None);
                        }
                    }
                    return Err(CapacityError((set, rejected)));
                },
            }
        }
        proof {
            assert(all.take(done) =~= all);
        }
        Ok(set)
    }

    /// Construct a [`PetitSet`] directly from a full slot sequence, without
    /// checking for duplicates.
    ///
    /// The caller must supply exactly `CAP` slots whose occupied entries are
    /// pairwise distinct, as the precondition states; a set built from
    /// duplicate elements behaves unpredictably.
    pub fn from_raw_array_unchecked(values: Vec<Option<T>>) -> (r: Self)
        requires
            values@.len() == CAP,
            distinct_elems(values@),
        ensures
            r@ == values@,
            r.wf(),
    {
        let ghost input = values@;
        let mut values = values;
        let mut slots: Vec<Option<(T, ())>> = Vec::new();
        let ghost mut done: int = 0;
        while values.len() > 0
            invariant
                0 <= done <= input.len(),
                values@ == input.skip(done),
                slots@.len() == done,
                forall|j: int|
                    0 <= j < done ==> slots@[j] == (match #[trigger] input[j] {
                        Some(t) => Some((t, ())),
                        None => None::<(T, ())>,
                    }),
            decreases values@.len(),
        {
            let element = values.remove(0);
            proof {
                assert(element == input[done]);
                assert(values@ =~= input.skip(done + 1));
            }
            match element {
                Some(t) => slots.push(Some((t, ()))),
                None => slots.push(None),
            }
            proof {
                done = done + 1;
            }
        }
        proof {
            assert forall|i: int, j: int|
                0 <= i < j < CAP && slots@[i] is Some && slots@[j] is Some implies ((
            slots@[i]->0).0 != (slots@[j]->0).0) by {
                assert(input[i] is Some && input[j] is Some);
            }
        }
        let r = PetitSet { map: PetitMap::from_raw_array_unchecked(slots) };
        proof {
            r.lemma_view_bridge();
            assert(r@ =~= input);
        }
        r
    }

    /// The raw slot sequence, gaps included: the serialization boundary.
    ///
    /// The result has exactly `CAP` elements and preserves slot positions.
    pub fn into_slots(self) -> (r: Vec<Option<T>>)
        ensures
            r@ == self@,
    {
        let ghost me = self;
        let mut pairs = self.map.into_slots();
        let ghost inner = pairs@;
        let mut out: Vec<Option<T>> = Vec::new();
        let ghost mut done: int = 0;
        while pairs.len() > 0
            invariant
                0 <= done <= inner.len(),
                pairs@ == inner.skip(done),
                out@.len() == done,
                forall|j: int|
                    0 <= j < done ==> out@[j] == (match #[trigger] inner[j] {
                        Some(p) => Some(p.0),
                        None => None::<T>,
                    }),
            decreases pairs@.len(),
        {
            let pair = pairs.remove(0);
            proof {
                assert(pair == inner[done]);
                assert(pairs@ =~= inner.skip(done + 1));
            }
            match pair {
                Some(p) => out.push(Some(p.0)),
                None => out.push(None),
            }
            proof {
                done = done + 1;
            }
        }
        proof {
            assert(out@ =~= strip_slots(inner));
        }
        out
    }

    /// The slot sequence a decoded set holds, given the encoded one: the
    /// first `CAP` slots, padded with trailing empty slots if the encoding
    /// was shorter.
    pub open spec fn spec_from_slots(s: Seq<Option<T>>) -> Seq<Option<T>> {
        Seq::new(
            CAP as nat,
            |i: int|
                if i < s.len() {
                    s[i]
                } else {
                    None
                },
        )
    }

    /// Rebuilds a set from a raw slot sequence: the inverse of
    /// [`Self::into_slots`], and the deserialization boundary.
    ///
    /// Slot positions (gaps included) are preserved; a sequence shorter than
    /// `CAP` leaves the trailing slots empty, and one longer than `CAP` is
    /// truncated.  A sequence with duplicate elements is a logic error that
    /// is not detected, exactly as for [`Self::from_raw_array_unchecked`].
    pub fn from_slots(values: Vec<Option<T>>) -> (r: Self)
        ensures
            r@ == Self::spec_from_slots(values@),
            distinct_elems(values@) ==> r.wf(),
    {
        let ghost input = values@;
        let mut values = values;
        let mut slots: Vec<Option<(T, ())>> = Vec::new();
        let ghost mut done: int = 0;
        while values.len() > 0
            invariant
                0 <= done <= input.len(),
                values@ == input.skip(done),
                slots@.len() == done,
                forall|j: int|
                    0 <= j < done ==> slots@[j] == (match #[trigger] input[j] {
                        Some(t) => Some((t, ())),
                        None => None::<(T, ())>,
                    }),
            decreases values@.len(),
        {
            let element = values.remove(0);
            proof {
                assert(element == input[done]);
                assert(values@ =~= input.skip(done + 1));
            }
            match element {
                Some(t) => slots.push(Some((t, ()))),
                None => slots.push(None),
            }
            proof {
                done = done + 1;
            }
        }
        let r = PetitSet { map: PetitMap::from_slots(slots) };
        proof {
            r.lemma_view_bridge();
            assert(r@ =~= Self::spec_from_slots(input));
            if distinct_elems(input) {
                assert forall|i: int, j: int|
                    0 <= i < j < CAP && r@[i] is Some && r@[j] is Some implies (r@[i]->0
                != r@[j]->0) by {
                    assert(r@[i] == input[i] && r@[j] == input[j]);
                }
            }
        }
        r
    }

    /// Converts the set into a consuming cursor over its elements.
    pub fn into_iter(self) -> (r: PetitSetIter<T, CAP>)
        ensures
            r.spec_set() == self,
            r.spec_cursor() == 0,
    {
        PetitSetIter { set: self, cursor: 0 }
    }

    /// Set-membership equality, indifferent to slot positions and to the
    /// declared capacities: the two sets hold exactly the same elements.
    pub open spec fn spec_set_eq<const OTHER_CAP: usize>(
        self,
        other: PetitSet<T, OTHER_CAP>,
    ) -> bool {
        forall|t: T|
            #![trigger self.spec_contains(t)]
            #![trigger other.spec_contains(t)]
            self.spec_contains(t) <==> other.spec_contains(t)
    }

    /// Tests set-membership equality between the two sets.
    ///
    /// This is order and cap size-independent.
    ///
    /// Uses an inefficient O(n^2) approach to avoid introducing additional
    /// trait bounds.
    pub fn set_eq<const OTHER_CAP: usize>(&self, other: &PetitSet<T, OTHER_CAP>) -> (r: bool)
        requires
            self.wf(),
            other.wf(),
            obeys_concrete_eq::<T>(),
        ensures
            r <==> self.spec_set_eq(*other),
    {
        let mut i: usize = 0;
        while i < self.capacity()
            invariant
                self.wf(),
                other.wf(),
                obeys_concrete_eq::<T>(),
                i <= CAP,
                forall|j: int|
                    0 <= j < i && (#[trigger] self@[j]) is Some ==> other.spec_contains(
                        self@[j]->0,
                    ),
            decreases CAP - i,
        {
            let mut missing = false;
            if let Some(element) = self.get_at(i) {
                if !other.contains(element) {
                    missing = true;
                }
            }
            if missing {
                return false;
            }
            i += 1;
        }
        let mut j: usize = 0;
        while j < other.capacity()
            invariant
                self.wf(),
                other.wf(),
                obeys_concrete_eq::<T>(),
                j <= OTHER_CAP,
                forall|t: int|
                    0 <= t < CAP && (#[trigger] self@[t]) is Some ==> other.spec_contains(
                        self@[t]->0,
                    ),
                forall|t: int|
                    0 <= t < j && (#[trigger] other@[t]) is Some ==> self.spec_contains(
                        other@[t]->0,
                    ),
            decreases OTHER_CAP - j,
        {
            let mut missing = false;
            if let Some(element) = other.get_at(j) {
                if !self.contains(element) {
                    missing = true;
                }
            }
            if missing {
                return false;
            }
            j += 1;
        }
        proof {
            assert forall|t: T| self.spec_contains(t) <==> other.spec_contains(t) by {
                if self.spec_contains(t) {
                    let w = seq_index_of_elem(self@, t);
                    assert(self@[w] == Some(t));
                }
                if other.spec_contains(t) {
                    let w = seq_index_of_elem(other@, t);
                    assert(other@[w] == Some(t));
                }
            }
        }
        true
    }
}

/// A consuming cursor for [`PetitSet`]: each step removes and yields the
/// element at the lowest occupied index not yet visited.
#[derive(Clone, Debug)]
pub struct PetitSetIter<T: Eq, const CAP: usize> {
    pub(crate) set: PetitSet<T, CAP>,
    pub(crate) cursor: usize,
}

impl<T: Eq, const CAP: usize> PetitSetIter<T, CAP> {
    /// The set still held by the cursor.
    pub closed spec fn spec_set(self) -> PetitSet<T, CAP> {
        self.set
    }

    /// The next index the cursor will visit.
    pub closed spec fn spec_cursor(self) -> int {
        self.cursor as int
    }

    /// Converts this cursor into the underlying [`PetitSet`]
    pub fn into_set(self) -> (r: PetitSet<T, CAP>)
        ensures
            r == self.spec_set(),
    {
        self.set
    }

    /// Removes and returns the next element in index order, if any.
    ///
    /// When the set is exhausted the cursor parks at `CAP` and keeps
    /// returning `None`.
    pub fn next(&mut self) -> (r: Option<T>)
        requires
            old(self).spec_set().wf(),
        ensures
            final(self).spec_set().wf(),
            match r {
                Some(e) => {
                    let i = final(self).spec_cursor() - 1;
                    &&& old(self).spec_cursor() <= i < CAP
                    &&& old(self).spec_set()@[i] == Some(e)
                    &&& (forall|j: int|
                        old(self).spec_cursor() <= j < i ==> old(self).spec_set()@[j] is None)
                    &&& final(self).spec_set()@ =~= old(self).spec_set()@.update(i, None::<T>)
                },
                None => {
                    &&& (forall|j: int|
                        old(self).spec_cursor() <= j < CAP ==> old(self).spec_set()@[j] is None)
                    &&& final(self).spec_set() == old(self).spec_set()
                    &&& final(self).spec_cursor() == CAP
                },
            },
    {
        match self.set.next_filled_index(self.cursor) {
            Some(index) => {
                self.cursor = index + 1;
                match self.set.take_at(index) {
                    Some(element) => Some(element),
                    None => vstd::pervasive::unreached(),
                }
            },
            None => {
                self.cursor = CAP;
                None
            },
        }
    }
}

impl<T: Eq, const CAP: usize> PartialEq for PetitSet<T, CAP> {
    /// Tests set-membership equality between the two sets; see
    /// [`PetitSet::set_eq`].
    ///
    /// A trait method cannot carry this crate's preconditions, so nothing is
    /// known about `==` on sets in verified code; verified callers use
    /// [`PetitSet::set_eq`], whose result is specified.
    fn eq(&self, other: &PetitSet<T, CAP>) -> bool {
        let my_len = self.map.slots_ref().len();
        let other_len = other.map.slots_ref().len();
        let mut i: usize = 0;
        while i < my_len
            invariant
                my_len == self.map@.len(),
                other_len == other.map@.len(),
            decreases my_len - i,
        {
            if let Some((element, _unit)) = &self.map.slots_ref()[i] {
                let mut found = false;
                let mut j: usize = 0;
                while j < other_len
                    invariant
                        other_len == other.map@.len(),
                    decreases other_len - j,
                {
                    if let Some((other_element, _other_unit)) = &other.map.slots_ref()[j] {
                        if *element == *other_element {
                            found = true;
                            break ;
                        }
                    }
                    j += 1;
                }
                if !found {
                    return false;
                }
            }
            i += 1;
        }
        let mut j: usize = 0;
        while j < other_len
            invariant
                my_len == self.map@.len(),
                other_len == other.map@.len(),
            decreases other_len - j,
        {
            if let Some((other_element, _other_unit)) = &other.map.slots_ref()[j] {
                let mut found = false;
                let mut i2: usize = 0;
                while i2 < my_len
                    invariant
                        my_len == self.map@.len(),
                    decreases my_len - i2,
                {
                    if let Some((element, _unit)) = &self.map.slots_ref()[i2] {
                        if *other_element == *element {
                            found = true;
                            break ;
                        }
                    }
                    i2 += 1;
                }
                if !found {
                    return false;
                }
            }
            j += 1;
        }
        true
    }
}

impl<T: Eq, const CAP: usize> vstd::std_specs::cmp::PartialEqSpecImpl for PetitSet<T, CAP> {
    open spec fn obeys_eq_spec() -> bool {
        false
    }

    open spec fn eq_spec(&self, other: &PetitSet<T, CAP>) -> bool {
        self.spec_set_eq(*other)
    }
}

impl<T: Eq, const CAP: usize> Eq for PetitSet<T, CAP> {

}


/// How slot membership changes when an empty slot is filled.
pub proof fn lemma_contains_after_insert<T>(s: Seq<Option<T>>, i: int, t0: T)
    requires
        0 <= i < s.len(),
        s[i] is None,
    ensures
        forall|t: T|
            seq_contains_elem(s.update(i, Some(t0)), t) <==> (#[trigger] seq_contains_elem(s, t)
                || t == t0),
{
    let s2 = s.update(i, Some(t0));
    assert forall|t: T|
        seq_contains_elem(s2, t) <==> (seq_contains_elem(s, t) || t == t0) by {
        if seq_contains_elem(s2, t) {
            let w = seq_index_of_elem(s2, t);
            assert(s2[w] == Some(t));
            if w != i {
                assert(s[w] == Some(t));
            }
        }
        if seq_contains_elem(s, t) {
            let w = seq_index_of_elem(s, t);
            assert(s[w] == Some(t));
            assert(w != i);
            assert(s2[w] == Some(t));
        }
        assert(s2[i] == Some(t0));
    }
}

/// Extending a slot prefix by one slot extends what it holds by that slot's
/// element, if occupied.
pub proof fn lemma_contains_take_step<T>(s: Seq<Option<T>>, i: int)
    requires
        0 <= i < s.len(),
    ensures
        forall|t: T|
            seq_contains_elem(s.take(i + 1), t) <==> (#[trigger] seq_contains_elem(s.take(i), t)
                || s[i] == Some(t)),
{
    assert forall|t: T|
        seq_contains_elem(s.take(i + 1), t) <==> (seq_contains_elem(s.take(i), t) || s[i] == Some(
        t)) by {
        if seq_contains_elem(s.take(i + 1), t) {
            let w = seq_index_of_elem(s.take(i + 1), t);
            assert(s.take(i + 1)[w] == Some(t));
            if w < i {
                assert(s.take(i)[w] == Some(t));
            } else {
                assert(s[i] == Some(t));
            }
        }
        if seq_contains_elem(s.take(i), t) {
            let w = seq_index_of_elem(s.take(i), t);
            assert(s.take(i)[w] == Some(t));
            assert(s.take(i + 1)[w] == Some(t));
        }
        if s[i] == Some(t) {
            assert(s.take(i + 1)[i] == Some(t));
        }
    }
}


impl<T: Eq, const CAP: usize> PetitSet<T, CAP> {
    /// Inserts an element into the next empty slot, without checking for
    /// uniqueness.
    ///
    /// The caller must guarantee that the element is not already present;
    /// this is what the precondition states.  The set algebra uses it where
    /// uniqueness holds by construction.
    pub(crate) fn insert_unchecked(&mut self, element: T) -> (r: Option<usize>)
        requires
            old(self).wf(),
            !old(self).spec_contains(element),
        ensures
            final(self).wf(),
            match r {
                Some(i) => {
                    &&& i < CAP
                    &&& old(self)@[i as int] is None
                    &&& (forall|j: int| 0 <= j < i ==> old(self)@[j] is Some)
                    &&& final(self)@ =~= old(self)@.update(i as int, Some(element))
                    &&& final(self).spec_len() == old(self).spec_len() + 1
                },
                None => {
                    &&& *final(self) == *old(self)
                    &&& old(self).spec_len() == CAP
                },
            },
    {
        proof {
            old(self).lemma_view_bridge();
            if old(self).map.spec_contains_key(element) {
                let w = crate::slots::seq_index_of(old(self).map@, element);
                assert(slot_keyed(old(self).map@[w], element));
                assert(old(self)@[w] == Some(element));
                assert(false);
            }
        }
        let ghost old_map = self.map;
        let r = self.map.insert_unchecked(element, ());
        proof {
            self.lemma_view_bridge();
            if r is Some {
                let i = r->0 as int;
                assert(self@ =~= old(self)@.update(i, Some(element)));
            } else {
                assert(self.map == old_map);
                assert(*self =~= *old(self));
            }
        }
        r
    }
}


impl<T: Eq, const CAP: usize> PetitSet<T, CAP> {
    /// Capacity invariant: a well-formed set never holds more than `CAP`
    /// elements, and a set that holds exactly `CAP` elements has no empty
    /// slot, so by the contract of `try_insert` a further novel element is
    /// rejected with a `CapacityError` (and by the precondition of `insert`,
    /// passing one is a caller error).
    pub proof fn lemma_capacity_invariant(self)
        requires
            self.wf(),
        ensures
            self.spec_len() <= CAP,
            self.spec_len() == CAP ==> forall|i: int| 0 <= i < CAP ==> self@[i] is Some,
    {
        lemma_count_le_len(self@);
        lemma_count_full(self@);
    }

    /// Uniqueness invariant: in a well-formed set — the state every
    /// constructor establishes and every mutation preserves, as their
    /// contracts ensure — no two occupied slots hold equal elements.
    pub proof fn lemma_uniqueness_invariant(self, i: int, j: int)
        requires
            self.wf(),
            0 <= i < CAP,
            0 <= j < CAP,
            i != j,
            self@[i] is Some,
            self@[j] is Some,
        ensures
            self@[i]->0 != self@[j]->0,
    {
    }

    /// Stable indexing: every mutation of this crate rewrites one slot (its
    /// contract ensures `final(self)@ == old(self)@.update(i, slot)`), and
    /// such a rewrite leaves every other slot exactly as it was.  In
    /// particular a removal never changes the index of any other occupied
    /// element, and a subsequent insertion may reuse the gap but disturbs no
    /// other index.
    pub proof fn lemma_stable_indexing(
        before: PetitSet<T, CAP>,
        after: PetitSet<T, CAP>,
        i: int,
        slot: Option<T>,
    )
        requires
            0 <= i < before@.len(),
            after@ == before@.update(i, slot),
        ensures
            forall|j: int| 0 <= j < before@.len() && j != i ==> after@[j] == before@[j],
    {
    }

    /// Round trip: encoding a set as its raw slot sequence (`into_slots`)
    /// and decoding that sequence (`from_slots`) yields the set back, slot
    /// for slot, internal gaps included.
    pub proof fn lemma_slots_round_trip(self)
        requires
            self@.len() == CAP,
        ensures
            Self::spec_from_slots(self@) == self@,
    {
        assert(Self::spec_from_slots(self@) =~= self@);
    }
}


impl<T: Eq, const CAP: usize> Default for PetitSet<T, CAP> {
    /// Creates an empty set, exactly like [`PetitSet::new`].
    fn default() -> (r: Self)
        ensures
            r.wf(),
            forall|i: int| 0 <= i < CAP ==> r@[i] is None,
            r.spec_len() == 0,
    {
        Self::new()
    }
}

} // verus!
