//! Algebraic manipulations of [`PetitSet`]s
//!
//! These operations are pure: they never mutate their operands, and each
//! builds a fresh set whose capacity is chosen by the caller, subject to the
//! stated bound that makes overflow impossible (the capacity of the first
//! operand for a difference, the sum of both capacities for a union or a
//! symmetric difference, and at least the first operand's capacity for an
//! intersection).

use crate::set::{lemma_contains_after_insert, lemma_contains_take_step, seq_contains_elem,
    seq_index_of_elem, PetitSet};
use crate::slots::{count_occupied, lemma_count_le_len};
use vstd::laws_eq::obeys_concrete_eq;
use vstd::pervasive::cloned;
use vstd::prelude::*;

verus! {

/// Every clone of a value equals the value.
///
/// Verus gives a generic `Clone` implementation no meaning of its own, so the
/// set algebra, which copies elements between sets by cloning them, asks its
/// callers for this property; every type whose `clone` is derived
/// structurally, such as the primitive integers, satisfies it.
pub open spec fn clone_is_identity<T: Clone>() -> bool {
    forall|a: T, b: T| #[trigger] cloned::<T>(a, b) ==> a == b
}

/// Clones a value; the result is pinned down by `clone_is_identity`.
fn clone_identical<T: Clone>(value: &T) -> (r: T)
    requires
        clone_is_identity::<T>(),
    ensures
        r == *value,
{
    let r = value.clone();
    proof {
        assert(cloned::<T>(*value, r));
    }
    r
}

/// Trivial replacement for `Ord::max` on capacities.
pub fn max_of(a: usize, b: usize) -> (r: usize)
    ensures
        r == (if a >= b {
            a
        } else {
            b
        }),
{
    if a >= b {
        a
    } else {
        b
    }
}

impl<T: Eq + Clone, const CAP: usize> PetitSet<T, CAP> {
    /// Returns a new set of the values that are in `self` but not in
    /// `other`.
    ///
    /// The result's capacity equals `self`'s, which always suffices since
    /// the result is a subset of `self`.
    pub fn difference<const OTHER_CAP: usize>(&self, other: &PetitSet<T, OTHER_CAP>) -> (r:
        PetitSet<T, CAP>)
        requires
            self.wf(),
            other.wf(),
            obeys_concrete_eq::<T>(),
            clone_is_identity::<T>(),
        ensures
            r.wf(),
            r.spec_elems() == self.spec_elems().difference(other.spec_elems()),
    {
        let mut result: PetitSet<T, CAP> = PetitSet::new();
        let mut i: usize = 0;
        while i < CAP
            invariant
                self.wf(),
                other.wf(),
                obeys_concrete_eq::<T>(),
                clone_is_identity::<T>(),
                i <= CAP,
                result.wf(),
                result.spec_len() <= count_occupied(self@.take(i as int)),
                forall|t: T|
                    #[trigger] seq_contains_elem(result@, t) <==> (seq_contains_elem(
                        self@.take(i as int),
                        t,
                    ) && !other.spec_contains(t)),
            decreases CAP - i,
        {
            proof {
                lemma_contains_take_step(self@, i as int);
                assert(self@.take(i + 1).drop_last() =~= self@.take(i as int));
                assert(self@.take(i + 1).last() == self@[i as int]);
                assert(count_occupied(self@.take(i + 1)) == count_occupied(self@.take(i as int))
                    + (if self@[i as int] is Some {
                    1int
                } else {
                    0int
                }));
                lemma_count_le_len(self@.take(i as int));
            }
            let ghost prev = result@;
            if let Some(element) = self.get_at(i) {
                if !other.contains(element) {
                    let t = clone_identical(element);
                    proof {
                        if result.spec_contains(t) {
                            let w = seq_index_of_elem(self@.take(i as int), t);
                            assert(self@.take(i as int)[w] == Some(t));
                            assert(self@[w] == Some(t) && self@[i as int] == Some(t));
                            assert(false);
                        }
                    }
                    match result.insert_unchecked(t) {
                        Some(idx) => {
                            proof {
                                lemma_contains_after_insert(prev, idx as int, t);
                            }
                        },
                        None => {
                            proof {
                                assert(false);
                            }
                        },
                    }
                }
            }
            proof {
                assert forall|t2: T| #![trigger seq_contains_elem(result@, t2)]
                    seq_contains_elem(result@, t2) <==> (seq_contains_elem(
                        self@.take(i + 1),
                        t2,
                    ) && !other.spec_contains(t2)) by {
                    assert(seq_contains_elem(prev, t2) <==> (seq_contains_elem(
                        self@.take(i as int),
                        t2,
                    ) && !other.spec_contains(t2)));
                    assert(seq_contains_elem(self@.take(i + 1), t2) <==> (seq_contains_elem(
                        self@.take(i as int),
                        t2,
                    ) || self@[i as int] == Some(t2)));
                }
            }
            i += 1;
            proof {
                assert(forall|t2: T| #![trigger seq_contains_elem(result@, t2)]
                    seq_contains_elem(result@, t2) <==> (seq_contains_elem(
                        self@.take(i as int),
                        t2,
                    ) && !other.spec_contains(t2)));
            }
        }
        proof {
            assert(self@.take(CAP as int) =~= self@);
            assert forall|t: T|
                result.spec_elems().contains(t) <==> self.spec_elems().difference(
                    other.spec_elems(),
                ).contains(t) by {
                assert(seq_contains_elem(result@, t) <==> (seq_contains_elem(self@.take(CAP as int), t)
                    && !other.spec_contains(t)));
            }
            assert(result.spec_elems() =~= self.spec_elems().difference(other.spec_elems()));
        }
        result
    }

    /// Returns a new set of the values that are in exactly one of `self` and
    /// `other`.
    ///
    /// The caller chooses the result capacity; the sum of the two operand
    /// capacities always suffices (the worst case, with no overlap), and the
    /// precondition asks for no less.
    pub fn symmetric_difference<const OTHER_CAP: usize, const RES_CAP: usize>(
        &self,
        other: &PetitSet<T, OTHER_CAP>,
    ) -> (r: PetitSet<T, RES_CAP>)
        requires
            self.wf(),
            other.wf(),
            obeys_concrete_eq::<T>(),
            clone_is_identity::<T>(),
            CAP as int + OTHER_CAP as int <= RES_CAP as int,
        ensures
            r.wf(),
            r.spec_elems() == self.spec_elems().difference(other.spec_elems()).union(
                other.spec_elems().difference(self.spec_elems()),
            ),
    {
        let mut result: PetitSet<T, RES_CAP> = PetitSet::new();
        let mut i: usize = 0;
        while i < CAP
            invariant
                self.wf(),
                other.wf(),
                obeys_concrete_eq::<T>(),
                clone_is_identity::<T>(),
                CAP as int + OTHER_CAP as int <= RES_CAP as int,
                i <= CAP,
                result.wf(),
                result.spec_len() <= count_occupied(self@.take(i as int)),
                forall|t: T|
                    #[trigger] seq_contains_elem(result@, t) <==> (seq_contains_elem(
                        self@.take(i as int),
                        t,
                    ) && !other.spec_contains(t)),
            decreases CAP - i,
        {
            proof {
                lemma_contains_take_step(self@, i as int);
                assert(self@.take(i + 1).drop_last() =~= self@.take(i as int));
                assert(self@.take(i + 1).last() == self@[i as int]);
                assert(count_occupied(self@.take(i + 1)) == count_occupied(self@.take(i as int))
                    + (if self@[i as int] is Some {
                    1int
                } else {
                    0int
                }));
                lemma_count_le_len(self@.take(i as int));
            }
            let ghost prev = result@;
            if let Some(element) = self.get_at(i) {
                if !other.contains(element) {
                    let t = clone_identical(element);
                    proof {
                        if result.spec_contains(t) {
                            let w = seq_index_of_elem(self@.take(i as int), t);
                            assert(self@.take(i as int)[w] == Some(t));
                            assert(self@[w] == Some(t) && self@[i as int] == Some(t));
                            assert(false);
                        }
                    }
                    match result.insert_unchecked(t) {
                        Some(idx) => {
                            proof {
                                lemma_contains_after_insert(prev, idx as int, t);
                            }
                        },
                        None => {
                            proof {
                                assert(false);
                            }
                        },
                    }
                }
            }
            proof {
                assert forall|t2: T| #![trigger seq_contains_elem(result@, t2)]
                    seq_contains_elem(result@, t2) <==> (seq_contains_elem(
                        self@.take(i + 1),
                        t2,
                    ) && !other.spec_contains(t2)) by {
                    assert(seq_contains_elem(prev, t2) <==> (seq_contains_elem(
                        self@.take(i as int),
                        t2,
                    ) && !other.spec_contains(t2)));
                    assert(seq_contains_elem(self@.take(i + 1), t2) <==> (seq_contains_elem(
                        self@.take(i as int),
                        t2,
                    ) || self@[i as int] == Some(t2)));
                }
            }
            i += 1;
            proof {
                assert(forall|t2: T| #![trigger seq_contains_elem(result@, t2)]
                    seq_contains_elem(result@, t2) <==> (seq_contains_elem(
                        self@.take(i as int),
                        t2,
                    ) && !other.spec_contains(t2)));
            }
        }
        proof {
            assert(self@.take(CAP as int) =~= self@);
            lemma_count_le_len(self@);
        }
        let mut j: usize = 0;
        while j < other.capacity()
            invariant
                self.wf(),
                other.wf(),
                obeys_concrete_eq::<T>(),
                clone_is_identity::<T>(),
                CAP as int + OTHER_CAP as int <= RES_CAP as int,
                j <= OTHER_CAP,
                result.wf(),
                result.spec_len() <= count_occupied(self@) + count_occupied(
                    other@.take(j as int),
                ),
                count_occupied(self@) <= CAP,
                forall|t: T|
                    #[trigger] seq_contains_elem(result@, t) <==> ((self.spec_contains(t)
                        && !other.spec_contains(t)) || (seq_contains_elem(other@.take(j as int), t)
                        && !self.spec_contains(t))),
            decreases OTHER_CAP - j,
        {
            proof {
                lemma_contains_take_step(other@, j as int);
                assert(other@.take(j + 1).drop_last() =~= other@.take(j as int));
                assert(other@.take(j + 1).last() == other@[j as int]);
                assert(count_occupied(other@.take(j + 1)) == count_occupied(
                    other@.take(j as int),
                ) + (if other@[j as int] is Some {
                    1int
                } else {
                    0int
                }));
                lemma_count_le_len(other@.take(j as int));
            }
            let ghost prev = result@;
            if let Some(element) = other.get_at(j) {
                if !self.contains(element) {
                    let t = clone_identical(element);
                    proof {
                        if result.spec_contains(t) {
                            assert(seq_contains_elem(prev, t));
                        }
                    }
                    match result.insert_unchecked(t) {
                        Some(idx) => {
                            proof {
                                lemma_contains_after_insert(prev, idx as int, t);
                            }
                        },
                        None => {
                            proof {
                                assert(false);
                            }
                        },
                    }
                }
            }
            proof {
                assert forall|t2: T|
                    seq_contains_elem(result@, t2) <==> ((self.spec_contains(t2)
                        && !other.spec_contains(t2)) || (seq_contains_elem(
                        other@.take(j + 1),
                        t2,
                    ) && !self.spec_contains(t2))) by {
                    assert(seq_contains_elem(prev, t2) <==> ((self.spec_contains(t2)
                        && !other.spec_contains(t2)) || (seq_contains_elem(
                        other@.take(j as int),
                        t2,
                    ) && !self.spec_contains(t2))));
                    assert(seq_contains_elem(other@.take(j + 1), t2) <==> (seq_contains_elem(
                        other@.take(j as int),
                        t2,
                    ) || other@[j as int] == Some(t2)));
                    if other@[j as int] is Some && other@[j as int] == Some(t2) {
                        assert(seq_contains_elem(other@, t2)) by {
                            assert(other@[j as int] == Some(t2));
                        }
                    }
                }
            }
            j += 1;
        }
        proof {
            assert(other@.take(OTHER_CAP as int) =~= other@);
            assert forall|t: T|
                result.spec_elems().contains(t) <==> self.spec_elems().difference(
                    other.spec_elems(),
                ).union(other.spec_elems().difference(self.spec_elems())).contains(t) by {
                assert(seq_contains_elem(result@, t) <==> ((self.spec_contains(t)
                    && !other.spec_contains(t)) || (seq_contains_elem(
                    other@.take(OTHER_CAP as int),
                    t,
                ) && !self.spec_contains(t))));
            }
            assert(result.spec_elems() =~= self.spec_elems().difference(other.spec_elems()).union(
                other.spec_elems().difference(self.spec_elems()),
            ));
        }
        result
    }

    /// Returns a new set of the values that are in both `self` and `other`.
    ///
    /// The caller chooses the result capacity; `self`'s capacity always
    /// suffices (the result is a subset of `self`), and the documented
    /// choice, the larger of the two operand capacities, satisfies the
    /// precondition as well.
    pub fn intersection<const OTHER_CAP: usize, const RES_CAP: usize>(
        &self,
        other: &PetitSet<T, OTHER_CAP>,
    ) -> (r: PetitSet<T, RES_CAP>)
        requires
            self.wf(),
            other.wf(),
            obeys_concrete_eq::<T>(),
            clone_is_identity::<T>(),
            CAP <= RES_CAP,
        ensures
            r.wf(),
            r.spec_elems() == self.spec_elems().intersect(other.spec_elems()),
    {
        let mut result: PetitSet<T, RES_CAP> = PetitSet::new();
        let mut i: usize = 0;
        while i < CAP
            invariant
                self.wf(),
                other.wf(),
                obeys_concrete_eq::<T>(),
                clone_is_identity::<T>(),
                CAP <= RES_CAP,
                i <= CAP,
                result.wf(),
                result.spec_len() <= count_occupied(self@.take(i as int)),
                forall|t: T|
                    #[trigger] seq_contains_elem(result@, t) <==> (seq_contains_elem(
                        self@.take(i as int),
                        t,
                    ) && other.spec_contains(t)),
            decreases CAP - i,
        {
            proof {
                lemma_contains_take_step(self@, i as int);
                assert(self@.take(i + 1).drop_last() =~= self@.take(i as int));
                assert(self@.take(i + 1).last() == self@[i as int]);
                assert(count_occupied(self@.take(i + 1)) == count_occupied(self@.take(i as int))
                    + (if self@[i as int] is Some {
                    1int
                } else {
                    0int
                }));
                lemma_count_le_len(self@.take(i as int));
            }
            let ghost prev = result@;
            if let Some(element) = self.get_at(i) {
                if other.contains(element) {
                    let t = clone_identical(element);
                    proof {
                        if result.spec_contains(t) {
                            let w = seq_index_of_elem(self@.take(i as int), t);
                            assert(self@.take(i as int)[w] == Some(t));
                            assert(self@[w] == Some(t) && self@[i as int] == Some(t));
                            assert(false);
                        }
                    }
                    match result.insert_unchecked(t) {
                        Some(idx) => {
                            proof {
                                lemma_contains_after_insert(prev, idx as int, t);
                            }
                        },
                        None => {
                            proof {
                                assert(false);
                            }
                        },
                    }
                }
            }
            proof {
                assert forall|t2: T| #![trigger seq_contains_elem(result@, t2)]
                    seq_contains_elem(result@, t2) <==> (seq_contains_elem(
                        self@.take(i + 1),
                        t2,
                    ) && other.spec_contains(t2)) by {
                    assert(seq_contains_elem(prev, t2) <==> (seq_contains_elem(
                        self@.take(i as int),
                        t2,
                    ) && other.spec_contains(t2)));
                    assert(seq_contains_elem(self@.take(i + 1), t2) <==> (seq_contains_elem(
                        self@.take(i as int),
                        t2,
                    ) || self@[i as int] == Some(t2)));
                }
            }
            i += 1;
            proof {
                assert(forall|t2: T| #![trigger seq_contains_elem(result@, t2)]
                    seq_contains_elem(result@, t2) <==> (seq_contains_elem(
                        self@.take(i as int),
                        t2,
                    ) && other.spec_contains(t2)));
            }
        }
        proof {
            assert(self@.take(CAP as int) =~= self@);
            assert forall|t: T|
                result.spec_elems().contains(t) <==> self.spec_elems().intersect(
                    other.spec_elems(),
                ).contains(t) by {
                assert(seq_contains_elem(result@, t) <==> (seq_contains_elem(self@.take(CAP as int), t)
                    && other.spec_contains(t)));
            }
            assert(result.spec_elems() =~= self.spec_elems().intersect(other.spec_elems()));
        }
        result
    }

    /// Returns a new set of all the distinct values of `self` and `other`.
    ///
    /// The caller chooses the result capacity; the sum of the two operand
    /// capacities always suffices, and the precondition asks for no less.
    pub fn union<const OTHER_CAP: usize, const RES_CAP: usize>(
        &self,
        other: &PetitSet<T, OTHER_CAP>,
    ) -> (r: PetitSet<T, RES_CAP>)
        requires
            self.wf(),
            other.wf(),
            obeys_concrete_eq::<T>(),
            clone_is_identity::<T>(),
            CAP as int + OTHER_CAP as int <= RES_CAP as int,
        ensures
            r.wf(),
            r.spec_elems() == self.spec_elems().union(other.spec_elems()),
    {
        let mut result: PetitSet<T, RES_CAP> = PetitSet::new();
        let mut i: usize = 0;
        while i < CAP
            invariant
                self.wf(),
                other.wf(),
                obeys_concrete_eq::<T>(),
                clone_is_identity::<T>(),
                CAP as int + OTHER_CAP as int <= RES_CAP as int,
                i <= CAP,
                result.wf(),
                result.spec_len() <= count_occupied(self@.take(i as int)),
                forall|t: T|
                    #[trigger] seq_contains_elem(result@, t) <==> seq_contains_elem(
                        self@.take(i as int),
                        t,
                    ),
            decreases CAP - i,
        {
            proof {
                lemma_contains_take_step(self@, i as int);
                assert(self@.take(i + 1).drop_last() =~= self@.take(i as int));
                assert(self@.take(i + 1).last() == self@[i as int]);
                assert(count_occupied(self@.take(i + 1)) == count_occupied(self@.take(i as int))
                    + (if self@[i as int] is Some {
                    1int
                } else {
                    0int
                }));
                lemma_count_le_len(self@.take(i as int));
            }
            let ghost prev = result@;
            if let Some(element) = self.get_at(i) {
                let t = clone_identical(element);
                proof {
                    if result.spec_contains(t) {
                        let w = seq_index_of_elem(self@.take(i as int), t);
                        assert(self@.take(i as int)[w] == Some(t));
                        assert(self@[w] == Some(t) && self@[i as int] == Some(t));
                        assert(false);
                    }
                }
                match result.insert_unchecked(t) {
                    Some(idx) => {
                        proof {
                            lemma_contains_after_insert(prev, idx as int, t);
                        }
                    },
                    None => {
                        proof {
                            assert(false);
                        }
                    },
                }
            }
            proof {
                assert forall|t2: T|
                    seq_contains_elem(result@, t2) <==> seq_contains_elem(
                        self@.take(i + 1),
                        t2,
                    ) by {
                    assert(seq_contains_elem(prev, t2) <==> seq_contains_elem(
                        self@.take(i as int),
                        t2,
                    ));
                    assert(seq_contains_elem(self@.take(i + 1), t2) <==> (seq_contains_elem(
                        self@.take(i as int),
                        t2,
                    ) || self@[i as int] == Some(t2)));
                }
            }
            i += 1;
        }
        proof {
            assert(self@.take(CAP as int) =~= self@);
            lemma_count_le_len(self@);
        }
        let mut j: usize = 0;
        while j < other.capacity()
            invariant
                self.wf(),
                other.wf(),
                obeys_concrete_eq::<T>(),
                clone_is_identity::<T>(),
                CAP as int + OTHER_CAP as int <= RES_CAP as int,
                j <= OTHER_CAP,
                result.wf(),
                result.spec_len() <= count_occupied(self@) + count_occupied(
                    other@.take(j as int),
                ),
                count_occupied(self@) <= CAP,
                forall|t: T|
                    #[trigger] seq_contains_elem(result@, t) <==> (self.spec_contains(t)
                        || seq_contains_elem(other@.take(j as int), t)),
            decreases OTHER_CAP - j,
        {
            proof {
                lemma_contains_take_step(other@, j as int);
                assert(other@.take(j + 1).drop_last() =~= other@.take(j as int));
                assert(other@.take(j + 1).last() == other@[j as int]);
                assert(count_occupied(other@.take(j + 1)) == count_occupied(
                    other@.take(j as int),
                ) + (if other@[j as int] is Some {
                    1int
                } else {
                    0int
                }));
                lemma_count_le_len(other@.take(j as int));
            }
            let ghost prev = result@;
            if let Some(element) = other.get_at(j) {
                // We are not guaranteed uniqueness by construction here, so
                // this insertion checks for duplicates.
                let t = clone_identical(element);
                let success = result.insert(t);
                proof {
                    match success {
                        crate::set::SuccesfulSetInsertion::ExtantElement(_idx) => {
                            assert(result@ == prev);
                        },
                        crate::set::SuccesfulSetInsertion::NovelElement(idx) => {
                            lemma_contains_after_insert(prev, idx as int, t);
                        },
                    }
                }
            }
            proof {
                assert forall|t2: T|
                    seq_contains_elem(result@, t2) <==> (self.spec_contains(t2)
                        || seq_contains_elem(other@.take(j + 1), t2)) by {
                    assert(seq_contains_elem(prev, t2) <==> (self.spec_contains(t2)
                        || seq_contains_elem(other@.take(j as int), t2)));
                    assert(seq_contains_elem(other@.take(j + 1), t2) <==> (seq_contains_elem(
                        other@.take(j as int),
                        t2,
                    ) || other@[j as int] == Some(t2)));
                }
            }
            j += 1;
        }
        proof {
            assert(other@.take(OTHER_CAP as int) =~= other@);
            assert forall|t: T|
                result.spec_elems().contains(t) <==> self.spec_elems().union(
                    other.spec_elems(),
                ).contains(t) by {
                assert(seq_contains_elem(result@, t) <==> (self.spec_contains(t)
                    || seq_contains_elem(other@.take(OTHER_CAP as int), t)));
            }
            assert(result.spec_elems() =~= self.spec_elems().union(other.spec_elems()));
        }
        result
    }

    /// Do the sets contain no common elements?
    pub fn is_disjoint<const OTHER_CAP: usize>(&self, other: &PetitSet<T, OTHER_CAP>) -> (r: bool)
        requires
            self.wf(),
            other.wf(),
            obeys_concrete_eq::<T>(),
        ensures
            r <==> self.spec_elems().disjoint(other.spec_elems()),
    {
        let mut i: usize = 0;
        while i < self.capacity()
            invariant
                self.wf(),
                other.wf(),
                obeys_concrete_eq::<T>(),
                i <= CAP,
                forall|j: int|
                    0 <= j < i && (#[trigger] self@[j]) is Some ==> !other.spec_contains(
                        self@[j]->0,
                    ),
            decreases CAP - i,
        {
            let mut shared = false;
            if let Some(element) = self.get_at(i) {
                if other.contains(element) {
                    shared = true;
                }
            }
            if shared {
                proof {
                    assert(self.spec_contains(self@[i as int]->0));
                    assert(self.spec_elems().contains(self@[i as int]->0));
                    assert(other.spec_elems().contains(self@[i as int]->0));
                }
                return false;
            }
            i += 1;
        }
        proof {
            assert forall|t: T| self.spec_elems().contains(t) implies !other.spec_elems().contains(
                t,
            ) by {
                let w = seq_index_of_elem(self@, t);
                assert(self@[w] == Some(t));
            }
        }
        true
    }

    /// Are all elements of `self` contained in `other`?
    pub fn is_subset<const OTHER_CAP: usize>(&self, other: &PetitSet<T, OTHER_CAP>) -> (r: bool)
        requires
            self.wf(),
            other.wf(),
            obeys_concrete_eq::<T>(),
        ensures
            r <==> self.spec_elems().subset_of(other.spec_elems()),
    {
        let mut i: usize = 0;
        while i < self.capacity()
            invariant
                self.wf(),
                other.wf(),
                obeys_concrete_eq::<T>(),
                i <= CAP,
                forall|j: int|
                    0 <= j < i && (#[trigger] self@[j]) is Some ==> other.spec_contains(
                        self@[j]->0,
                    ),
            decreases CAP - i,
        {
            let mut missing = false;
            if let Some(element) = self.get_at(i) {
                if !other.contains(element) {
                    missing = true;
                }
            }
            if missing {
                proof {
                    assert(self.spec_contains(self@[i as int]->0));
                    assert(self.spec_elems().contains(self@[i as int]->0));
                    assert(!other.spec_elems().contains(self@[i as int]->0));
                }
                return false;
            }
            i += 1;
        }
        proof {
            assert forall|t: T| self.spec_elems().contains(t) implies other.spec_elems().contains(
                t,
            ) by {
                let w = seq_index_of_elem(self@, t);
                assert(self@[w] == Some(t));
            }
        }
        true
    }

    /// Are all elements of `other` contained in `self`?
    pub fn is_superset<const OTHER_CAP: usize>(&self, other: &PetitSet<T, OTHER_CAP>) -> (r: bool)
        requires
            self.wf(),
            other.wf(),
            obeys_concrete_eq::<T>(),
        ensures
            r <==> other.spec_elems().subset_of(self.spec_elems()),
    {
        other.is_subset(self)
    }
}

/// The union of two sets contains every element of either operand.
///
/// `union(A, B)` is a superset of `A` and of `B`: its contract states that
/// its elements are `A`'s joined with `B`'s, and each operand's elements are
/// included in that join.
pub proof fn lemma_union_is_superset<T: Eq, const CAP_A: usize, const CAP_B: usize>(
    a: PetitSet<T, CAP_A>,
    b: PetitSet<T, CAP_B>,
)
    ensures
        a.spec_elems().subset_of(a.spec_elems().union(b.spec_elems())),
        b.spec_elems().subset_of(a.spec_elems().union(b.spec_elems())),
{
}

/// The intersection of two sets is contained in each operand.
///
/// `intersection(A, B)` is a subset of `A` and of `B`: its contract states
/// that its elements are those common to both, which lie in each operand.
pub proof fn lemma_intersection_is_subset<T: Eq, const CAP_A: usize, const CAP_B: usize>(
    a: PetitSet<T, CAP_A>,
    b: PetitSet<T, CAP_B>,
)
    ensures
        a.spec_elems().intersect(b.spec_elems()).subset_of(a.spec_elems()),
        a.spec_elems().intersect(b.spec_elems()).subset_of(b.spec_elems()),
{
}

/// The difference of two sets shares no element with the subtrahend.
///
/// `difference(A, B)` is disjoint from `B`: its contract states that its
/// elements are `A`'s with `B`'s removed, so intersecting it with `B`'s
/// elements leaves nothing.
pub proof fn lemma_difference_disjoint<T: Eq, const CAP_A: usize, const CAP_B: usize>(
    a: PetitSet<T, CAP_A>,
    b: PetitSet<T, CAP_B>,
)
    ensures
        a.spec_elems().difference(b.spec_elems()).intersect(b.spec_elems()) == Set::<T>::empty(),
{
    assert(a.spec_elems().difference(b.spec_elems()).intersect(b.spec_elems())
        =~= Set::<T>::empty());
}

/// The symmetric difference is the union of the two one-sided differences.
///
/// Given results carrying the contracts of `difference` applied both ways,
/// of `union` applied to those two results, and of `symmetric_difference`
/// applied to the operands, the last two hold exactly the same elements.
pub proof fn lemma_symmetric_difference_is_union_of_differences<
    T: Eq,
    const CAP_A: usize,
    const CAP_B: usize,
    const CAP_AB: usize,
    const CAP_BA: usize,
    const CAP_U: usize,
    const CAP_S: usize,
>(
    a: PetitSet<T, CAP_A>,
    b: PetitSet<T, CAP_B>,
    a_minus_b: PetitSet<T, CAP_AB>,
    b_minus_a: PetitSet<T, CAP_BA>,
    joined: PetitSet<T, CAP_U>,
    symmetric: PetitSet<T, CAP_S>,
)
    requires
        a_minus_b.spec_elems() == a.spec_elems().difference(b.spec_elems()),
        b_minus_a.spec_elems() == b.spec_elems().difference(a.spec_elems()),
        joined.spec_elems() == a_minus_b.spec_elems().union(b_minus_a.spec_elems()),
        symmetric.spec_elems() == a.spec_elems().difference(b.spec_elems()).union(
            b.spec_elems().difference(a.spec_elems()),
        ),
    ensures
        symmetric.spec_elems() == joined.spec_elems(),
{
}

/// Every set is a subset of itself.
///
/// By the contract of `is_subset`, this is why `is_subset(A, A)` always
/// returns true.
pub proof fn lemma_subset_reflexive<T: Eq, const CAP: usize>(a: PetitSet<T, CAP>)
    ensures
        a.spec_elems().subset_of(a.spec_elems()),
{
}

} // verus!
