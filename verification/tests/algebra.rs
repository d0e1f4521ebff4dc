use petitset::set_algebra::max_of;
use petitset::PetitSet;

// Sets A = {7, 13, 5} with capacity 3 and B = {15, 7, 3, 4, 5} with capacity
// 5: the difference is {13}, the intersection {7, 5}, and the symmetric
// difference {13, 15, 3, 4}.
#[test]
fn set_algebra_scenarios() {
    let set_a: PetitSet<usize, 3> = PetitSet::try_from_iter(vec![7, 13, 5]).unwrap();
    let set_b: PetitSet<usize, 5> = PetitSet::try_from_iter(vec![15, 7, 3, 4, 5]).unwrap();

    let a_minus_b: PetitSet<usize, 3> = set_a.difference(&set_b);
    let expected_diff: PetitSet<usize, 3> = PetitSet::try_from_iter(vec![13]).unwrap();
    assert_eq!(a_minus_b, expected_diff);

    let a_intersection_b: PetitSet<usize, 5> = set_a.intersection(&set_b);
    let expected_intersection: PetitSet<usize, 5> = PetitSet::try_from_iter(vec![7, 5]).unwrap();
    assert_eq!(a_intersection_b, expected_intersection);

    let a_sym_diff_b: PetitSet<usize, 8> = set_a.symmetric_difference(&set_b);
    let expected_sym_diff: PetitSet<usize, 8> =
        PetitSet::try_from_iter(vec![13, 15, 3, 4]).unwrap();
    assert_eq!(a_sym_diff_b, expected_sym_diff);
}

#[test]
fn difference_both_ways() {
    let set_a: PetitSet<usize, 3> = PetitSet::try_from_iter(vec![7, 13, 5]).unwrap();
    let set_b: PetitSet<usize, 5> = PetitSet::try_from_iter(vec![15, 7, 3, 4, 5]).unwrap();

    let computed_b_minus_a: PetitSet<usize, 5> = set_b.difference(&set_a);
    let set_b_minus_a: PetitSet<usize, 5> = PetitSet::try_from_iter(vec![15, 3, 4]).unwrap();
    assert_eq!(computed_b_minus_a, set_b_minus_a);
}

#[test]
fn union_collects_all_distinct_elements() {
    let set_a: PetitSet<usize, 3> = PetitSet::try_from_iter(vec![7, 13, 5]).unwrap();
    let set_b: PetitSet<usize, 5> = PetitSet::try_from_iter(vec![15, 7, 3, 4, 5]).unwrap();

    let computed_union: PetitSet<usize, 8> = set_a.union(&set_b);
    let expected_union: PetitSet<usize, 8> =
        PetitSet::try_from_iter(vec![7, 13, 5, 15, 3, 4]).unwrap();
    assert_eq!(computed_union, expected_union);
    assert_eq!(computed_union.len(), 6);

    let other_way: PetitSet<usize, 8> = set_b.union(&set_a);
    assert_eq!(computed_union, other_way);
}

#[test]
fn symmetric_difference_is_commutative() {
    let set_a: PetitSet<usize, 3> = PetitSet::try_from_iter(vec![7, 13, 5]).unwrap();
    let set_b: PetitSet<usize, 5> = PetitSet::try_from_iter(vec![15, 7, 3, 4, 5]).unwrap();

    let one_way: PetitSet<usize, 8> = set_a.symmetric_difference(&set_b);
    let other_way: PetitSet<usize, 8> = set_b.symmetric_difference(&set_a);
    assert_eq!(one_way, other_way);
}

#[test]
fn disjointness() {
    let set_a: PetitSet<usize, 3> = PetitSet::try_from_iter(vec![7, 13, 5]).unwrap();
    let set_b: PetitSet<usize, 5> = PetitSet::try_from_iter(vec![15, 7, 3, 4, 5]).unwrap();
    let mut set_c: PetitSet<usize, 1> = PetitSet::default();
    set_c.insert(42);

    assert!(!set_a.is_disjoint(&set_b));
    assert!(!set_b.is_disjoint(&set_a));

    assert!(set_a.is_disjoint(&set_c));
    assert!(set_c.is_disjoint(&set_a));
}

#[test]
fn subsets_and_supersets() {
    let set_a: PetitSet<usize, 3> = PetitSet::try_from_iter(vec![1, 2, 3]).unwrap();
    let set_b: PetitSet<usize, 5> = PetitSet::try_from_iter(vec![2, 3]).unwrap();

    assert!(set_a.is_subset(&set_a));

    assert!(!set_a.is_subset(&set_b));
    assert!(set_b.is_subset(&set_a));

    assert!(set_a.is_superset(&set_a));

    assert!(set_a.is_superset(&set_b));
    assert!(!set_b.is_superset(&set_a));
}

#[test]
fn algebra_laws_on_concrete_sets() {
    let set_a: PetitSet<usize, 3> = PetitSet::try_from_iter(vec![7, 13, 5]).unwrap();
    let set_b: PetitSet<usize, 5> = PetitSet::try_from_iter(vec![15, 7, 3, 4, 5]).unwrap();

    // union(A, B) is a superset of A and of B.
    let joined: PetitSet<usize, 8> = set_a.union(&set_b);
    assert!(set_a.is_subset(&joined));
    assert!(set_b.is_subset(&joined));
    assert!(joined.is_superset(&set_a));

    // intersection(A, B) is a subset of A and of B.
    let common: PetitSet<usize, 5> = set_a.intersection(&set_b);
    assert!(common.is_subset(&set_a));
    assert!(common.is_subset(&set_b));

    // difference(A, B) shares nothing with B.
    let a_minus_b: PetitSet<usize, 3> = set_a.difference(&set_b);
    assert!(a_minus_b.is_disjoint(&set_b));

    // symmetric_difference(A, B) = union(difference(A, B), difference(B, A)).
    let b_minus_a: PetitSet<usize, 5> = set_b.difference(&set_a);
    let sym: PetitSet<usize, 8> = set_a.symmetric_difference(&set_b);
    let diff_union: PetitSet<usize, 8> = a_minus_b.union(&b_minus_a);
    assert_eq!(sym, diff_union);

    // is_subset(A, A) always holds.
    assert!(set_a.is_subset(&set_a));
    assert!(set_b.is_subset(&set_b));
}

#[test]
fn max_of_picks_the_larger() {
    assert_eq!(max_of(3, 5), 5);
    assert_eq!(max_of(5, 3), 5);
    assert_eq!(max_of(4, 4), 4);
}
