//! Concrete checks of term evaluation and of relation detection against an
//! evidence collection.

use term_algebra::Range;
use term_algebra::Relation;
use term_algebra::Term;

#[test]
fn evaluation_matches_the_definition() {
    let positive = Term::Positive(Range::between(1, 3));
    let negative = Term::Negative(Range::between(1, 3));
    for v in 0u64..5 {
        let inside = (1..3).contains(&v);
        assert_eq!(positive.accept_version(&v), inside);
        assert_eq!(negative.accept_version(&v), !inside);
        assert_eq!(positive.accept_optional_version(&Some(v)), inside);
        assert_eq!(negative.accept_optional_version(&Some(v)), !inside);
    }
    // Absence of a version rejects a requirement and meets a prohibition.
    assert!(!positive.accept_optional_version(&None));
    assert!(negative.accept_optional_version(&None));
}

#[test]
fn negative_term_on_chosen_versions() {
    let t = Term::Negative(Range::between(2, 3));
    assert!(!t.accept_version(&2));
    assert!(t.accept_version(&5));
    assert!(t.accept_optional_version(&None));
}

#[test]
fn empty_evidence_satisfies_only_the_tautology() {
    let empty: Vec<Term> = vec![];
    assert!(Term::Negative(Range::none()).satisfied_by(&empty));
    assert!(!Term::Positive(Range::none()).satisfied_by(&empty));
    assert!(!Term::Positive(Range::between(1, 2)).satisfied_by(&empty));
    assert!(!Term::Negative(Range::between(1, 2)).satisfied_by(&empty));
    assert!(!Term::Positive(Range::any()).satisfied_by(&empty));
    // A negative term over the empty range is the tautology in its
    // canonical spelling, whatever way it was written down.
    assert!(Term::Negative(Range::between(4, 4)).satisfied_by(&empty));
}

#[test]
fn empty_evidence_contradicts_only_the_unsatisfiable_term() {
    let empty: Vec<Term> = vec![];
    assert!(Term::Positive(Range::none()).contradicted_by(&empty));
    assert!(!Term::Negative(Range::none()).contradicted_by(&empty));
    assert!(!Term::Positive(Range::between(1, 2)).contradicted_by(&empty));
    assert!(!Term::Negative(Range::between(1, 2)).contradicted_by(&empty));
}

#[test]
fn relation_agrees_with_the_two_queries() {
    let evidence = vec![
        Term::Positive(Range::between(1, 4)),
        Term::Negative(Range::between(3, 6)),
    ];
    let satisfied = Term::Positive(Range::between(0, 5));
    let contradicted = Term::Positive(Range::higher_than(7));
    let inconclusive = Term::Positive(Range::between(2, 9));
    for t in [&satisfied, &contradicted, &inconclusive] {
        let rel = t.relation_with(Some(&evidence));
        let sat = t.satisfied_by(&evidence);
        let con = t.contradicted_by(&evidence);
        assert_eq!(rel == Relation::Satisfied, sat);
        assert_eq!(rel == Relation::Contradicted, con && !sat);
        assert_eq!(rel == Relation::Inconclusive, !sat && !con);
    }
    assert_eq!(satisfied.relation_with(Some(&evidence)), Relation::Satisfied);
    assert_eq!(contradicted.relation_with(Some(&evidence)), Relation::Contradicted);
    assert_eq!(inconclusive.relation_with(Some(&evidence)), Relation::Inconclusive);
}

#[test]
fn disjoint_evidence_pieces_fold_to_the_empty_term() {
    // The two half-open pieces share only the boundary 3, which belongs to
    // neither, so together they allow no version at all: every term is then
    // vacuously satisfied (and contradicted; the classification prefers
    // Satisfied).
    let candidate = Term::Positive(Range::between(1, 5));
    let evidence = vec![
        Term::Positive(Range::between(1, 3)),
        Term::Positive(Range::between(3, 5)),
    ];
    let folded = Term::intersect_all(&evidence).unwrap();
    assert_eq!(folded, Term::Positive(Range::none()));
    assert!(candidate.satisfied_by(&evidence));
    assert!(candidate.contradicted_by(&evidence));
    assert_eq!(candidate.relation_with(Some(&evidence)), Relation::Satisfied);
}

#[test]
fn covering_evidence_satisfies() {
    let candidate = Term::Positive(Range::between(1, 5));
    let evidence = vec![Term::Positive(Range::between(2, 4))];
    assert_eq!(candidate.relation_with(Some(&evidence)), Relation::Satisfied);
    assert!(candidate.satisfied_by(&evidence));
    assert!(!candidate.contradicted_by(&evidence));
}

#[test]
fn disjoint_requirement_is_contradicted() {
    let candidate = Term::Positive(Range::between(1, 2));
    let evidence = vec![Term::Positive(Range::between(3, 4))];
    assert_eq!(candidate.relation_with(Some(&evidence)), Relation::Contradicted);
    assert!(!candidate.satisfied_by(&evidence));
    assert!(candidate.contradicted_by(&evidence));
}

#[test]
fn overlapping_requirement_is_inconclusive() {
    let candidate = Term::Positive(Range::between(1, 3));
    let evidence = vec![Term::Positive(Range::between(2, 5))];
    assert_eq!(candidate.relation_with(Some(&evidence)), Relation::Inconclusive);
    assert!(!candidate.satisfied_by(&evidence));
    assert!(!candidate.contradicted_by(&evidence));
}

#[test]
fn relation_without_evidence() {
    // Absent evidence folds to the neutral element Negative(none()).  For a
    // non-tautological negative term the intersection with the neutral
    // element is the term itself, not the neutral element, so the relation
    // stays inconclusive.
    let t = Term::Negative(Range::between(1, 2));
    assert_eq!(t.relation_with(None::<&Vec<Term>>), Relation::Inconclusive);
    // Only the tautology itself is entailed by no evidence; the
    // unsatisfiable term is the only one contradicted by it.
    let tautology = Term::Negative(Range::none());
    assert_eq!(tautology.relation_with(None::<&Vec<Term>>), Relation::Satisfied);
    let unsatisfiable = Term::Positive(Range::none());
    assert_eq!(unsatisfiable.relation_with(None::<&Vec<Term>>), Relation::Contradicted);
    let positive = Term::Positive(Range::between(1, 2));
    assert_eq!(positive.relation_with(None::<&Vec<Term>>), Relation::Inconclusive);
}

#[test]
fn absent_and_empty_evidence_agree() {
    let empty: Vec<Term> = vec![];
    for t in [
        Term::Negative(Range::none()),
        Term::Positive(Range::none()),
        Term::Positive(Range::between(1, 2)),
        Term::Negative(Range::between(1, 2)),
    ] {
        assert_eq!(t.relation_with(None::<&Vec<Term>>), t.relation_with(Some(&empty)));
    }
}
