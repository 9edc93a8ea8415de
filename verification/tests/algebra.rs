//! Concrete checks of the term set algebra: negation, intersection, union,
//! subset, and the canonical form of ranges.

use term_algebra::Range;
use term_algebra::Term;

#[test]
fn double_negation_is_identity() {
    let t = Term::Positive(Range::between(1, 2));
    assert_eq!(t.negate().negate(), t);
    let n = Term::Negative(Range::higher_than(3));
    assert_eq!(n.negate().negate(), n);
}

#[test]
fn negation_swaps_sign() {
    let t = Term::Positive(Range::between(1, 2));
    assert!(t.is_positive());
    assert!(!t.negate().is_positive());
    assert_eq!(t.negate(), Term::Negative(Range::between(1, 2)));
}

#[test]
fn de_morgan_union() {
    let t1 = Term::Positive(Range::between(1, 4));
    let t2 = Term::Negative(Range::between(2, 6));
    let direct = t1.union(&t2);
    let via_negations = t1
        .negate()
        .intersection(&t2.negate())
        .negate();
    assert_eq!(direct, via_negations);
    // Truth table at a few versions: a union accepts what either side does.
    for v in [0u64, 1, 2, 3, 5, 6, 7] {
        assert_eq!(
            direct.accept_version(&v),
            t1.accept_version(&v) || t2.accept_version(&v)
        );
    }
    assert_eq!(
        direct.accept_optional_version(&None),
        t1.accept_optional_version(&None) || t2.accept_optional_version(&None)
    );
}

#[test]
fn intersection_commutative() {
    let t1 = Term::Positive(Range::between(1, 5));
    let t2 = Term::Negative(Range::between(3, 8));
    assert_eq!(t1.intersection(&t2), t2.intersection(&t1));
    let t3 = Term::Negative(Range::higher_than(4));
    assert_eq!(t2.intersection(&t3), t3.intersection(&t2));
}

#[test]
fn union_commutative() {
    let t1 = Term::Positive(Range::between(1, 5));
    let t2 = Term::Negative(Range::between(3, 8));
    assert_eq!(t1.union(&t2), t2.union(&t1));
}

#[test]
fn intersection_associative() {
    let t1 = Term::Positive(Range::between(1, 9));
    let t2 = Term::Negative(Range::between(2, 4));
    let t3 = Term::Positive(Range::higher_than(3));
    assert_eq!(
        t1.intersection(&t2).intersection(&t3),
        t1.intersection(&t2.intersection(&t3))
    );
}

#[test]
fn union_associative() {
    let t1 = Term::Positive(Range::between(1, 3));
    let t2 = Term::Negative(Range::between(2, 4));
    let t3 = Term::Positive(Range::higher_than(6));
    assert_eq!(t1.union(&t2).union(&t3), t1.union(&t2.union(&t3)));
}

#[test]
fn intersection_idempotent() {
    let t = Term::Positive(Range::between(1, 5));
    assert_eq!(t.intersection(&t), t);
    let n = Term::Negative(Range::between(1, 5));
    assert_eq!(n.intersection(&n), n);
}

#[test]
fn union_idempotent() {
    let t = Term::Positive(Range::between(1, 5));
    assert_eq!(t.union(&t), t);
    let n = Term::Negative(Range::higher_than(2));
    assert_eq!(n.union(&n), n);
}

#[test]
fn subset_reflexive() {
    let t = Term::Positive(Range::between(1, 5));
    assert!(t.subset_of(&t));
    let n = Term::Negative(Range::between(1, 5));
    assert!(n.subset_of(&n));
    let empty = Term::Positive(Range::none());
    assert!(empty.subset_of(&empty));
}

#[test]
fn intersection_of_overlapping_positives() {
    let t1 = Term::Positive(Range::between(1, 2));
    let t2 = Term::Positive(Range::between(1, 3));
    assert_eq!(t1.intersection(&t2), Term::Positive(Range::between(1, 2)));
    assert!(t1.subset_of(&t2));
    assert!(!t2.subset_of(&t1));
}

#[test]
fn mixed_sign_intersection_is_difference() {
    // A and (not B) keeps exactly the part of A outside B.
    let t1 = Term::Positive(Range::between(1, 6));
    let t2 = Term::Negative(Range::between(1, 4));
    assert_eq!(t1.intersection(&t2), Term::Positive(Range::between(4, 6)));
    assert_eq!(t2.intersection(&t1), Term::Positive(Range::between(4, 6)));
}

#[test]
fn negative_intersection_joins_ranges() {
    let t1 = Term::Negative(Range::between(1, 2));
    let t2 = Term::Negative(Range::between(3, 4));
    let meet = t1.intersection(&t2);
    assert!(!meet.is_positive());
    for v in [1u64, 3] {
        assert!(!meet.accept_version(&v));
    }
    for v in [0u64, 2, 4, 9] {
        assert!(meet.accept_version(&v));
    }
}

#[test]
fn intersect_all_folds_left() {
    let terms = vec![
        Term::Positive(Range::between(1, 9)),
        Term::Negative(Range::between(2, 4)),
        Term::Positive(Range::between(1, 7)),
    ];
    let folded = Term::intersect_all(&terms).unwrap();
    let expected = terms[0].intersection(&terms[1]).intersection(&terms[2]);
    assert_eq!(folded, expected);
    assert_eq!(folded, Term::Positive(Range::between(1, 2).union(&Range::between(4, 7))));
}

#[test]
fn intersect_all_of_nothing_is_none() {
    let terms: Vec<Term> = vec![];
    assert!(Term::intersect_all(&terms).is_none());
}

#[test]
fn intersect_all_of_one_is_that_term() {
    let terms = vec![Term::Negative(Range::between(2, 3))];
    assert_eq!(Term::intersect_all(&terms).unwrap(), terms[0]);
}

#[test]
fn ranges_are_canonical() {
    // An empty interval is the empty set, whatever its bounds.
    assert_eq!(Range::between(5, 5), Range::none());
    assert_eq!(Range::between(7, 3), Range::none());
    assert_eq!(Term::Positive(Range::between(5, 5)), Term::Positive(Range::none()));
    // Touching intervals coalesce into one.
    assert_eq!(Range::between(1, 2).union(&Range::between(2, 3)), Range::between(1, 3));
    // Negating twice restores the one canonical form.
    let r = Range::between(1, 2).union(&Range::higher_than(8));
    assert_eq!(r.negate().negate(), r);
}

#[test]
fn range_constructors_evaluate() {
    assert!(!Range::none().contains(&0));
    assert!(Range::any().contains(&0));
    assert!(Range::any().contains(&u64::MAX));
    assert!(Range::exact(3).contains(&3));
    assert!(!Range::exact(3).contains(&2));
    assert!(!Range::exact(3).contains(&4));
    assert!(Range::exact(u64::MAX).contains(&u64::MAX));
    assert!(!Range::exact(u64::MAX).contains(&(u64::MAX - 1)));
    assert!(Range::higher_than(2).contains(&2));
    assert!(!Range::higher_than(2).contains(&1));
    assert!(Range::strictly_lower_than(2).contains(&1));
    assert!(!Range::strictly_lower_than(2).contains(&2));
    assert!(Range::between(1, 3).contains(&1));
    assert!(Range::between(1, 3).contains(&2));
    assert!(!Range::between(1, 3).contains(&3));
    assert!(!Range::between(1, 3).contains(&0));
}

#[test]
fn terms_clone_equal() {
    let t = Term::Negative(Range::between(1, 2).union(&Range::exact(9)));
    assert_eq!(t.clone(), t);
}
