//! The algebraic laws of the term algebra.
//!
//! Each law is stated over the same spec functions that the executable
//! operations promise in their contracts (`is_negation_of`,
//! `is_intersection_of`, `is_union_of`, and the entailment predicates), so a
//! law about, say, two intersections applies to any pair of results the
//! executable `intersection` can return.  Equalities between terms are
//! genuine structural equalities, reached through the canonical form of
//! ranges via [`lemma_term_eq_iff`].

use crate::range::Version;
use crate::term::lemma_term_eq_iff;
use crate::term::all_accept;
use crate::term::Relation;
use crate::term::Term;
use vstd::prelude::*;
use vstd::std_specs::cmp::PartialEqSpec;

verus! {

/// Double negation: negating a term twice gives back the original term.
pub proof fn lemma_double_negation(t: Term, n: Term, nn: Term)
    requires
        t.wf(),
        nn.wf(),
        n.is_negation_of(t),
        nn.is_negation_of(n),
    ensures
        nn.eq_spec(&t),
{
    assert forall|v: Option<Version>| #[trigger] nn.accepts(v) == t.accepts(v) by {
        assert(n.accepts(v) == !t.accepts(v));
    }
    lemma_term_eq_iff(nn, t);
}

/// De Morgan: the negation of the intersection of two negations is the
/// union of the original terms.
pub proof fn lemma_de_morgan(t1: Term, t2: Term, n1: Term, n2: Term, meet: Term, neg_meet: Term)
    requires
        n1.is_negation_of(t1),
        n2.is_negation_of(t2),
        meet.is_intersection_of(n1, n2),
        neg_meet.is_negation_of(meet),
    ensures
        neg_meet.is_union_of(t1, t2),
{
    assert forall|v: Option<Version>| #[trigger] neg_meet.accepts(v) == (t1.accepts(v)
        || t2.accepts(v)) by {
        assert(meet.accepts(v) == (n1.accepts(v) && n2.accepts(v)));
        assert(n1.accepts(v) == !t1.accepts(v));
        assert(n2.accepts(v) == !t2.accepts(v));
    }
}

/// Intersection is commutative.
pub proof fn lemma_intersection_commutative(t1: Term, t2: Term, a: Term, b: Term)
    requires
        a.wf(),
        b.wf(),
        a.is_intersection_of(t1, t2),
        b.is_intersection_of(t2, t1),
    ensures
        a.eq_spec(&b),
{
    assert forall|v: Option<Version>| #[trigger] a.accepts(v) == b.accepts(v) by {
        assert(a.accepts(v) == (t1.accepts(v) && t2.accepts(v)));
        assert(b.accepts(v) == (t2.accepts(v) && t1.accepts(v)));
    }
    lemma_term_eq_iff(a, b);
}

/// Intersection is associative.
pub proof fn lemma_intersection_associative(
    t1: Term,
    t2: Term,
    t3: Term,
    left_inner: Term,
    left: Term,
    right_inner: Term,
    right: Term,
)
    requires
        left.wf(),
        right.wf(),
        left_inner.is_intersection_of(t1, t2),
        left.is_intersection_of(left_inner, t3),
        right_inner.is_intersection_of(t2, t3),
        right.is_intersection_of(t1, right_inner),
    ensures
        left.eq_spec(&right),
{
    assert forall|v: Option<Version>| #[trigger] left.accepts(v) == right.accepts(v) by {
        assert(left.accepts(v) == (left_inner.accepts(v) && t3.accepts(v)));
        assert(left_inner.accepts(v) == (t1.accepts(v) && t2.accepts(v)));
        assert(right.accepts(v) == (t1.accepts(v) && right_inner.accepts(v)));
        assert(right_inner.accepts(v) == (t2.accepts(v) && t3.accepts(v)));
    }
    lemma_term_eq_iff(left, right);
}

/// Union is commutative.
pub proof fn lemma_union_commutative(t1: Term, t2: Term, a: Term, b: Term)
    requires
        a.wf(),
        b.wf(),
        a.is_union_of(t1, t2),
        b.is_union_of(t2, t1),
    ensures
        a.eq_spec(&b),
{
    assert forall|v: Option<Version>| #[trigger] a.accepts(v) == b.accepts(v) by {
        assert(a.accepts(v) == (t1.accepts(v) || t2.accepts(v)));
        assert(b.accepts(v) == (t2.accepts(v) || t1.accepts(v)));
    }
    lemma_term_eq_iff(a, b);
}

/// Union is associative.
pub proof fn lemma_union_associative(
    t1: Term,
    t2: Term,
    t3: Term,
    left_inner: Term,
    left: Term,
    right_inner: Term,
    right: Term,
)
    requires
        left.wf(),
        right.wf(),
        left_inner.is_union_of(t1, t2),
        left.is_union_of(left_inner, t3),
        right_inner.is_union_of(t2, t3),
        right.is_union_of(t1, right_inner),
    ensures
        left.eq_spec(&right),
{
    assert forall|v: Option<Version>| #[trigger] left.accepts(v) == right.accepts(v) by {
        assert(left.accepts(v) == (left_inner.accepts(v) || t3.accepts(v)));
        assert(left_inner.accepts(v) == (t1.accepts(v) || t2.accepts(v)));
        assert(right.accepts(v) == (t1.accepts(v) || right_inner.accepts(v)));
        assert(right_inner.accepts(v) == (t2.accepts(v) || t3.accepts(v)));
    }
    lemma_term_eq_iff(left, right);
}

/// Idempotence: the intersection of a term with itself is the term.
pub proof fn lemma_intersection_idempotent(t: Term, meet: Term)
    requires
        t.wf(),
        meet.wf(),
        meet.is_intersection_of(t, t),
    ensures
        meet.eq_spec(&t),
{
    assert forall|v: Option<Version>| #[trigger] meet.accepts(v) == t.accepts(v) by {
        assert(meet.accepts(v) == (t.accepts(v) && t.accepts(v)));
    }
    lemma_term_eq_iff(meet, t);
}

/// Idempotence: the union of a term with itself is the term.
pub proof fn lemma_union_idempotent(t: Term, join: Term)
    requires
        t.wf(),
        join.wf(),
        join.is_union_of(t, t),
    ensures
        join.eq_spec(&t),
{
    assert forall|v: Option<Version>| #[trigger] join.accepts(v) == t.accepts(v) by {
        assert(join.accepts(v) == (t.accepts(v) || t.accepts(v)));
    }
    lemma_term_eq_iff(join, t);
}

/// Subset is reflexive: every term is a subset of itself.
pub proof fn lemma_subset_reflexive(t: Term)
    ensures
        t.spec_subset_of(t),
{
}

/// The three-way classification agrees with the two entailment queries: a
/// relation is `Satisfied` exactly when the evidence satisfies the term;
/// when it does not, the relation is `Contradicted` exactly when the
/// evidence contradicts the term; and it is `Inconclusive` exactly when the
/// evidence neither satisfies nor contradicts the term.  (Evidence whose
/// terms can never hold together both satisfies and contradicts every term;
/// the classification then reports `Satisfied`.)
pub proof fn lemma_relation_consistency(
    t: Term,
    evidence: Seq<Term>,
    rel: Relation,
    sat: bool,
    con: bool,
)
    requires
        (rel is Satisfied) == t.spec_satisfied_by(evidence),
        (rel is Contradicted) == (t.spec_contradicted_by(evidence) && !t.spec_satisfied_by(
            evidence,
        )),
        (rel is Inconclusive) == (!t.spec_satisfied_by(evidence) && !t.spec_contradicted_by(
            evidence,
        )),
        sat == t.spec_satisfied_by(evidence),
        con == t.spec_contradicted_by(evidence),
    ensures
        (rel is Satisfied) == sat,
        !sat ==> ((rel is Contradicted) == con),
        (rel is Inconclusive) == (!sat && !con),
{
}

/// Empty evidence entails nothing beyond "true" and rules nothing out: it
/// satisfies exactly the always-true term and contradicts exactly the
/// always-false one.
pub proof fn lemma_empty_evidence(t: Term)
    ensures
        t.spec_satisfied_by(Seq::empty()) == t.is_tautology(),
        t.spec_contradicted_by(Seq::empty()) == t.is_unsatisfiable(),
{
    let empty = Seq::<Term>::empty();
    assert forall|v: Option<Version>| #[trigger] all_accept(empty, v) by {}
    if t.spec_satisfied_by(empty) {
        assert forall|v: Option<Version>| #[trigger] t.accepts(v) by {
            assert(all_accept(empty, v));
        }
    }
    if t.spec_contradicted_by(empty) {
        assert forall|v: Option<Version>| !#[trigger] t.accepts(v) by {
            assert(all_accept(empty, v));
        }
    }
}

} // verus!
