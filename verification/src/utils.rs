//! Assorted utilities for [`PetitSet`] and [`PetitMap`](crate::PetitMap),
//! which are primarily valuable when writing tests

use crate::set::PetitSet;
use core::cmp::Ordering;
use vstd::laws_cmp::obeys_cmp;
use vstd::laws_eq::obeys_concrete_eq;
use vstd::prelude::*;
use vstd::std_specs::cmp::{PartialEqSpec, PartialOrdSpec};

verus! {

/// Is `a` less than or equal to `b`, under the type's own ordering?
pub open spec fn spec_le<T: PartialOrd>(a: T, b: T) -> bool {
    a.partial_cmp_spec(&b) matches Some(Ordering::Less | Ordering::Equal)
}

impl<T: Eq + Clone + Copy + Ord, const CAP: usize> PetitSet<T, CAP> {
    /// Is this set sorted when iterated over?
    ///
    /// True exactly when every occupied slot's element is no larger than
    /// every occupied slot's element at a higher index.
    pub fn is_sorted(&self) -> (r: bool)
        requires
            self.wf(),
            obeys_cmp::<T>(),
            obeys_concrete_eq::<T>(),
        ensures
            r <==> (forall|a: int, b: int|
                0 <= a < b < CAP && (#[trigger] self@[a]) is Some && (#[trigger] self@[b]) is Some
                    ==> spec_le(self@[a]->0, self@[b]->0)),
    {
        proof {
            reveal(vstd::laws_cmp::obeys_cmp_partial_ord);
            reveal(vstd::laws_cmp::obeys_partial_cmp_spec_properties);
            reveal(vstd::laws_eq::obeys_concrete_eq);
        }
        let mut prev: Option<T> = None;
        let mut i: usize = 0;
        while i < CAP
            invariant
                self.wf(),
                obeys_cmp::<T>(),
                obeys_concrete_eq::<T>(),
                i <= CAP,
                forall|a: int, b: int|
                    0 <= a < b < i && (#[trigger] self@[a]) is Some && (#[trigger] self@[b])
                        is Some ==> spec_le(self@[a]->0, self@[b]->0),
                match prev {
                    Some(p) => exists|k: int|
                        0 <= k < i && #[trigger] self@[k] == Some(p) && (forall|m: int|
                            k < m < i ==> self@[m] is None),
                    None => forall|m: int| 0 <= m < i ==> self@[m] is None,
                },
            decreases CAP - i,
        {
            if let Some(element) = self.get_at(i) {
                let current = *element;
                if let Some(previous) = prev {
                    if !(previous <= current) {
                        proof {
                            reveal(vstd::laws_cmp::obeys_cmp_partial_ord);
                            let k = choose|k: int|
                                0 <= k < i && #[trigger] self@[k] == Some(previous) && (forall|
                                    m: int,
                                |
                                    k < m < i ==> self@[m] is None);
                            assert(self@[k] is Some && self@[i as int] is Some);
                            assert(!spec_le(self@[k]->0, self@[i as int]->0));
                        }
                        return false;
                    }
                }
                proof {
                    reveal(vstd::laws_cmp::obeys_cmp_partial_ord);
                    reveal(vstd::laws_cmp::obeys_partial_cmp_spec_properties);
                    reveal(vstd::laws_eq::obeys_concrete_eq);
                    if prev is Some {
                        let p = prev->0;
                        let k = choose|k: int|
                            0 <= k < i && #[trigger] self@[k] == Some(p) && (forall|m: int|
                                k < m < i ==> self@[m] is None);
                        assert(spec_le(p, current));
                        assert forall|a: int, b: int|
                            0 <= a < b < i + 1 && (#[trigger] self@[a]) is Some && (
                        #[trigger] self@[b]) is Some implies spec_le(self@[a]->0, self@[b]->0) by {
                            if b == i {
                                if a == k {
                                } else {
                                    assert(a < k);
                                    assert(spec_le(self@[a]->0, self@[k]->0));
                                    let x = self@[a]->0;
                                    if x.partial_cmp_spec(&p) == Some(Ordering::Equal) {
                                        assert(x.eq_spec(&p));
                                        assert(x == p);
                                    } else {
                                        assert(x.partial_cmp_spec(&p) == Some(Ordering::Less));
                                        if p.partial_cmp_spec(&current) == Some(Ordering::Equal) {
                                            assert(p == current);
                                        } else {
                                            assert(x.partial_cmp_spec(&current) == Some(
                                                Ordering::Less,
                                            ));
                                        }
                                    }
                                }
                            }
                        }
                    } else {
                        assert forall|a: int, b: int|
                            0 <= a < b < i + 1 && (#[trigger] self@[a]) is Some && (
                        #[trigger] self@[b]) is Some implies spec_le(self@[a]->0, self@[b]->0) by {
                            if b == i {
                                assert(self@[a] is None);
                            }
                        }
                    }
                    assert(self@[i as int] == Some(current));
                }
                prev = Some(current);
            } else {
                proof {
                    if prev is Some {
                        let p = prev->0;
                        let k = choose|k: int|
                            0 <= k < i && #[trigger] self@[k] == Some(p) && (forall|m: int|
                                k < m < i ==> self@[m] is None);
                        assert(0 <= k < i + 1 && self@[k] == Some(p) && (forall|m: int|
                            k < m < i + 1 ==> self@[m] is None));
                    }
                }
            }
            i += 1;
        }
        true
    }
}

} // verus!
