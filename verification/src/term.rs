//! A term is the fundamental unit of the constraint algebra: a positive or
//! negative proposition over a set of versions.
//!
//! Every contract here is stated against the spec function [`Term::accepts`],
//! which gives the truth value of a term under each possible selection state:
//! no version chosen, or some version chosen.  Because ranges are canonical,
//! two well-formed terms that accept the same selection states are equal
//! ([`lemma_term_eq_iff`]), which is what makes the algebraic laws in
//! [`crate::laws`] provable.

use crate::range::lemma_range_eq_iff;
use crate::range::Range;
use crate::range::Version;
use vstd::prelude::*;
use vstd::std_specs::cmp::PartialEqSpec;

verus! {

/// A positive or negative expression regarding a set of versions.
#[derive(Debug)]
pub enum Term {
    /// For example, "1 <= v < 2" is a positive expression that is evaluated
    /// true if a version is selected and lies between version 1 and
    /// version 2.
    Positive(Range),
    /// The term "not (v < 3)" is a negative expression that is evaluated
    /// true if a version at or above 3 is selected, or if no version is
    /// selected at all.
    Negative(Range),
}

/// Whether every term of `ts` accepts the selection state `v`.
pub open spec fn all_accept(ts: Seq<Term>, v: Option<Version>) -> bool {
    forall|i: int| 0 <= i < ts.len() ==> #[trigger] ts[i].accepts(v)
}

/// The evidence handed to `relation_with`, as a sequence of terms; absent
/// evidence carries the same meaning as an empty collection.
pub open spec fn evidence_view(other_terms: Option<&Vec<Term>>) -> Seq<Term> {
    match other_terms {
        Option::Some(ts) => ts@,
        Option::None => Seq::empty(),
    }
}

impl Term {
    /// The truth value of the term under a selection state: `None` when no
    /// version is selected, `Some(x)` when version `x` is.
    pub open spec fn accepts(self, v: Option<Version>) -> bool {
        match self {
            Term::Positive(r) => match v {
                Option::Some(x) => r.spec_contains(x),
                Option::None => false,
            },
            Term::Negative(r) => match v {
                Option::Some(x) => !r.spec_contains(x),
                Option::None => true,
            },
        }
    }

    /// The range the term speaks about.
    pub open spec fn range_of(self) -> Range {
        match self {
            Term::Positive(r) => r,
            Term::Negative(r) => r,
        }
    }

    /// A term is well formed when its range is; every term built by
    /// executable code is.
    pub open spec fn wf(self) -> bool {
        self.range_of().wf()
    }

    /// True under every selection state: the term `Negative(none())`.
    pub open spec fn is_tautology(self) -> bool {
        forall|v: Option<Version>| #[trigger] self.accepts(v)
    }

    /// False under every selection state: the term `Positive(none())`.
    pub open spec fn is_unsatisfiable(self) -> bool {
        forall|v: Option<Version>| !#[trigger] self.accepts(v)
    }

    /// The two terms accept exactly the same selection states.
    pub open spec fn equivalent_to(self, other: Term) -> bool {
        forall|v: Option<Version>|
            #![trigger self.accepts(v)]
            #![trigger other.accepts(v)]
            self.accepts(v) == other.accepts(v)
    }

    /// `self` is true exactly when `other` is false.
    pub open spec fn is_negation_of(self, other: Term) -> bool {
        forall|v: Option<Version>|
            #![trigger self.accepts(v)]
            #![trigger other.accepts(v)]
            self.accepts(v) == !other.accepts(v)
    }

    /// `self` is the conjunction of `t1` and `t2`.
    pub open spec fn is_intersection_of(self, t1: Term, t2: Term) -> bool {
        forall|v: Option<Version>|
            #![trigger self.accepts(v)]
            #![trigger t1.accepts(v)]
            #![trigger t2.accepts(v)]
            self.accepts(v) == (t1.accepts(v) && t2.accepts(v))
    }

    /// `self` is the disjunction of `t1` and `t2`.
    pub open spec fn is_union_of(self, t1: Term, t2: Term) -> bool {
        forall|v: Option<Version>|
            #![trigger self.accepts(v)]
            #![trigger t1.accepts(v)]
            #![trigger t2.accepts(v)]
            self.accepts(v) == (t1.accepts(v) || t2.accepts(v))
    }

    /// Every selection state accepted by `self` is accepted by `other`.
    pub open spec fn spec_subset_of(self, other: Term) -> bool {
        forall|v: Option<Version>|
            #![trigger self.accepts(v)]
            #![trigger other.accepts(v)]
            self.accepts(v) ==> other.accepts(v)
    }

    /// Whenever every term of `evidence` is true, so is `self`.
    pub open spec fn spec_satisfied_by(self, evidence: Seq<Term>) -> bool {
        forall|v: Option<Version>|
            #![trigger all_accept(evidence, v)]
            #![trigger self.accepts(v)]
            all_accept(evidence, v) ==> self.accepts(v)
    }

    /// Whenever every term of `evidence` is true, `self` is false.
    pub open spec fn spec_contradicted_by(self, evidence: Seq<Term>) -> bool {
        forall|v: Option<Version>|
            #![trigger all_accept(evidence, v)]
            #![trigger self.accepts(v)]
            all_accept(evidence, v) ==> !self.accepts(v)
    }

    /// Makes the well-formedness carried by the range's type invariant
    /// available to proofs.
    fn note_wf(&self)
        ensures
            self.wf(),
    {
        proof {
            match self {
                Term::Positive(r) => use_type_invariant(r),
                Term::Negative(r) => use_type_invariant(r),
            }
        }
    }

    /// Simply check if a term is positive.
    pub fn is_positive(&self) -> (r: bool)
        ensures
            r == (*self is Positive),
    {
        match self {
            Term::Positive(_) => true,
            Term::Negative(_) => false,
        }
    }

    /// Negate a term.  Evaluation of a negated term always returns the
    /// opposite of the evaluation of the original one.
    pub fn negate(&self) -> (r: Term)
        ensures
            r.is_negation_of(*self),
    {
        match self {
            Term::Positive(range) => Term::Negative(range.clone()),
            Term::Negative(range) => Term::Positive(range.clone()),
        }
    }

    /// Evaluate a term regarding a given choice (or absence) of version.
    pub fn accept_optional_version(&self, v_option: &Option<Version>) -> (r: bool)
        ensures
            r == self.accepts(*v_option),
    {
        match (self, v_option) {
            (Term::Negative(_), Option::None) => true,
            (Term::Positive(_), Option::None) => false,
            (_, Option::Some(v)) => self.accept_version(v),
        }
    }

    /// Evaluate a term regarding a given choice of version.
    pub fn accept_version(&self, v: &Version) -> (r: bool)
        ensures
            r == self.accepts(Option::Some(*v)),
    {
        match self {
            Term::Positive(range) => range.contains(v),
            Term::Negative(range) => !(range.contains(v)),
        }
    }

    /// Compute the intersection of two terms.  If at least one term is
    /// positive, the intersection is also positive.
    pub fn intersection(&self, other: &Term) -> (r: Term)
        ensures
            r.is_intersection_of(*self, *other),
            (r is Positive) == ((*self is Positive) || (*other is Positive)),
    {
        match (self, other) {
            (Term::Positive(r1), Term::Positive(r2)) => Term::Positive(r1.intersection(r2)),
            (Term::Positive(r1), Term::Negative(r2)) => Term::Positive(
                r1.intersection(&r2.negate()),
            ),
            (Term::Negative(r1), Term::Positive(r2)) => Term::Positive(
                r1.negate().intersection(r2),
            ),
            (Term::Negative(r1), Term::Negative(r2)) => Term::Negative(r1.union(r2)),
        }
    }

    /// Compute the union of two terms, through the intersection of their
    /// negations.  If at least one term is negative, the union is also
    /// negative.
    pub fn union(&self, other: &Term) -> (r: Term)
        ensures
            r.is_union_of(*self, *other),
            (r is Negative) == ((*self is Negative) || (*other is Negative)),
    {
        let meet_of_negations = self.negate().intersection(&other.negate());
        let r = meet_of_negations.negate();
        proof {
            assert(r.accepts(Option::None) == !meet_of_negations.accepts(Option::None));
        }
        r
    }

    /// Compute the intersection of multiple terms; `None` on an empty
    /// collection.
    pub fn intersect_all(all_terms: &Vec<Term>) -> (r: Option<Term>)
        ensures
            (match r {
                Option::None => all_terms@.len() == 0,
                Option::Some(t) => all_terms@.len() > 0 && (forall|v: Option<Version>|
                    #[trigger] t.accepts(v) == all_accept(all_terms@, v)),
            }),
    {
        if all_terms.len() == 0 {
            return Option::None;
        }
        let mut acc = all_terms[0].clone();
        proof {
            assert forall|v: Option<Version>| #[trigger] acc.accepts(v) == all_accept(
                all_terms@.take(1),
                v,
            ) by {
                assert(all_terms@.take(1)[0] == all_terms@[0]);
                assert(all_accept(all_terms@.take(1), v) ==> all_terms@.take(1)[0].accepts(v));
            }
        }
        let mut k: usize = 1;
        while k < all_terms.len()
            invariant
                1 <= k <= all_terms@.len(),
                forall|v: Option<Version>| #[trigger] acc.accepts(v) == all_accept(
                    all_terms@.take(k as int),
                    v,
                ),
            decreases all_terms@.len() - k,
        {
            let next = acc.intersection(&all_terms[k]);
            proof {
                assert forall|v: Option<Version>| #[trigger] next.accepts(v) == all_accept(
                    all_terms@.take(k as int + 1),
                    v,
                ) by {
                    lemma_all_accept_take_step(all_terms@, k as int, v);
                }
            }
            acc = next;
            k = k + 1;
        }
        proof {
            assert(all_terms@.take(all_terms@.len() as int) =~= all_terms@);
        }
        Option::Some(acc)
    }

    /// Indicate if this term is a subset of another term.  Just like for
    /// sets, we say that t1 is a subset of t2 if and only if t1 ∩ t2 = t1.
    pub fn subset_of(&self, other: &Term) -> (r: bool)
        ensures
            r == self.spec_subset_of(*other),
    {
        self.note_wf();
        let inter = self.intersection(other);
        inter.note_wf();
        let r = *self == inter;
        proof {
            lemma_term_eq_iff(*self, inter);
            if self.equivalent_to(inter) {
                assert forall|v: Option<Version>| #[trigger] self.accepts(v) implies
                    other.accepts(v) by {
                    assert(self.accepts(v) == inter.accepts(v));
                }
            }
            if self.spec_subset_of(*other) {
                assert forall|v: Option<Version>| #[trigger] self.accepts(v) == inter.accepts(
                    v,
                ) by {
                    assert(inter.accepts(v) == (self.accepts(v) && other.accepts(v)));
                }
            }
        }
        r
    }

    /// Check if a set of terms satisfies this term.
    ///
    /// We say that a set of terms S "satisfies" a term t if t must be true
    /// whenever every term in S is true.  An empty set entails nothing, so
    /// it satisfies exactly the always-true term `Negative(none())`.
    pub fn satisfied_by(&self, terms: &Vec<Term>) -> (r: bool)
        ensures
            r == self.spec_satisfied_by(terms@),
            terms@.len() == 0 ==> r == self.is_tautology(),
    {
        self.note_wf();
        match Term::intersect_all(terms) {
            Option::None => {
                let tautology = Term::Negative(Range::none());
                tautology.note_wf();
                let r = *self == tautology;
                proof {
                    lemma_term_eq_iff(*self, tautology);
                    assert(tautology.is_tautology());
                    if self.is_tautology() {
                        assert(self.equivalent_to(tautology));
                    }
                    if self.equivalent_to(tautology) {
                        assert forall|v: Option<Version>| #[trigger] self.accepts(v) by {
                            assert(tautology.accepts(v));
                        }
                    }
                    if self.is_tautology() {
                        assert forall|v: Option<Version>| all_accept(terms@, v) implies
                            #[trigger] self.accepts(v) by {}
                    }
                }
                r
            },
            Option::Some(fold) => {
                let r = fold.subset_of(self);
                proof {
                    if fold.spec_subset_of(*self) {
                        assert forall|v: Option<Version>| all_accept(terms@, v) implies
                            #[trigger] self.accepts(v) by {
                            assert(fold.accepts(v) == all_accept(terms@, v));
                        }
                    }
                    if self.spec_satisfied_by(terms@) {
                        assert forall|v: Option<Version>| #[trigger] fold.accepts(v) implies
                            self.accepts(v) by {
                            assert(fold.accepts(v) == all_accept(terms@, v));
                        }
                    }
                }
                r
            },
        }
    }

    /// Check if a set of terms contradicts this term.
    ///
    /// We say that a set of terms S "contradicts" a term t if t must be
    /// false whenever every term in S is true.  An empty set contradicts
    /// exactly the always-false term `Positive(none())`.
    pub fn contradicted_by(&self, terms: &Vec<Term>) -> (r: bool)
        ensures
            r == self.spec_contradicted_by(terms@),
            terms@.len() == 0 ==> r == self.is_unsatisfiable(),
    {
        self.note_wf();
        let absurd = Term::Positive(Range::none());
        absurd.note_wf();
        proof {
            assert(absurd.is_unsatisfiable());
        }
        match Term::intersect_all(terms) {
            Option::None => {
                let r = *self == absurd;
                proof {
                    lemma_term_eq_iff(*self, absurd);
                    if self.equivalent_to(absurd) {
                        assert forall|v: Option<Version>| !#[trigger] self.accepts(v) by {
                            assert(!absurd.accepts(v));
                        }
                    }
                    if self.is_unsatisfiable() {
                        assert(self.equivalent_to(absurd));
                    }
                    if self.is_unsatisfiable() {
                        assert forall|v: Option<Version>| all_accept(terms@, v) implies
                            !#[trigger] self.accepts(v) by {}
                    }
                }
                r
            },
            Option::Some(fold) => {
                let full = fold.intersection(self);
                full.note_wf();
                let r = full == absurd;
                proof {
                    lemma_term_eq_iff(full, absurd);
                    if full.equivalent_to(absurd) {
                        assert forall|v: Option<Version>| all_accept(terms@, v) implies
                            !#[trigger] self.accepts(v) by {
                            assert(!full.accepts(v));
                            assert(fold.accepts(v) == all_accept(terms@, v));
                        }
                    }
                    if self.spec_contradicted_by(terms@) {
                        assert forall|v: Option<Version>| #[trigger] full.accepts(v)
                            == absurd.accepts(v) by {
                            assert(fold.accepts(v) == all_accept(terms@, v));
                            assert(full.accepts(v) == (fold.accepts(v) && self.accepts(v)));
                        }
                    }
                }
                r
            },
        }
    }

    /// Check if a set of terms satisfies or contradicts a given term.
    /// Otherwise the relation is inconclusive.  Absent evidence carries the
    /// same meaning as an empty collection: the neutral element
    /// `Negative(none())`.
    pub fn relation_with(&self, other_terms: Option<&Vec<Term>>) -> (rel: Relation)
        ensures
            (rel is Satisfied) == self.spec_satisfied_by(evidence_view(other_terms)),
            (rel is Contradicted) == (self.spec_contradicted_by(evidence_view(other_terms))
                && !self.spec_satisfied_by(evidence_view(other_terms))),
            (rel is Inconclusive) == (!self.spec_satisfied_by(evidence_view(other_terms))
                && !self.spec_contradicted_by(evidence_view(other_terms))),
    {
        self.note_wf();
        let ghost ev = evidence_view(other_terms);
        let evidence = match other_terms {
            Option::Some(ts) => Term::intersect_all(ts),
            Option::None => Option::None,
        };
        let fold = match evidence {
            Option::Some(t) => t,
            Option::None => Term::Negative(Range::none()),
        };
        fold.note_wf();
        proof {
            assert forall|v: Option<Version>| #[trigger] fold.accepts(v) == all_accept(ev, v) by {}
        }
        let full = self.intersection(&fold);
        full.note_wf();
        let sat = full == fold;
        proof {
            lemma_term_eq_iff(full, fold);
            if full.equivalent_to(fold) {
                assert forall|v: Option<Version>| all_accept(ev, v) implies #[trigger] self.accepts(
                    v,
                ) by {
                    assert(full.accepts(v) == fold.accepts(v));
                    assert(full.accepts(v) == (self.accepts(v) && fold.accepts(v)));
                }
            }
            if self.spec_satisfied_by(ev) {
                assert forall|v: Option<Version>| #[trigger] full.accepts(v) == fold.accepts(
                    v,
                ) by {
                    assert(fold.accepts(v) == all_accept(ev, v));
                    assert(full.accepts(v) == (self.accepts(v) && fold.accepts(v)));
                }
            }
            assert(sat == self.spec_satisfied_by(ev));
        }
        if sat {
            return Relation::Satisfied;
        }
        let absurd = Term::Positive(Range::none());
        absurd.note_wf();
        let con = full == absurd;
        proof {
            lemma_term_eq_iff(full, absurd);
            assert(absurd.is_unsatisfiable());
            if full.equivalent_to(absurd) {
                assert forall|v: Option<Version>| all_accept(ev, v) implies !#[trigger] self.accepts(
                    v,
                ) by {
                    assert(!full.accepts(v));
                    assert(fold.accepts(v) == all_accept(ev, v));
                }
            }
            if self.spec_contradicted_by(ev) {
                assert forall|v: Option<Version>| #[trigger] full.accepts(v) == absurd.accepts(
                    v,
                ) by {
                    assert(fold.accepts(v) == all_accept(ev, v));
                    assert(full.accepts(v) == (self.accepts(v) && fold.accepts(v)));
                }
            }
            assert(con == self.spec_contradicted_by(ev));
        }
        if con {
            Relation::Contradicted
        } else {
            Relation::Inconclusive
        }
    }
}

/// Extending the evidence by one term conjoins that term's acceptance.
proof fn lemma_all_accept_take_step(ts: Seq<Term>, k: int, v: Option<Version>)
    requires
        0 <= k < ts.len(),
    ensures
        all_accept(ts.take(k + 1), v) == (all_accept(ts.take(k), v) && ts[k].accepts(v)),
{
    assert(forall|i: int| 0 <= i < k + 1 ==> ts.take(k + 1)[i] == ts[i]);
    assert(forall|i: int| 0 <= i < k ==> ts.take(k)[i] == ts[i]);
    if all_accept(ts.take(k + 1), v) {
        assert(ts.take(k + 1)[k].accepts(v));
        assert forall|i: int| 0 <= i < k implies #[trigger] ts.take(k)[i].accepts(v) by {
            assert(ts.take(k + 1)[i].accepts(v));
        }
    }
    if all_accept(ts.take(k), v) && ts[k].accepts(v) {
        assert forall|i: int| 0 <= i < k + 1 implies #[trigger] ts.take(k + 1)[i].accepts(v) by {
            if i < k {
                assert(ts.take(k)[i].accepts(v));
            }
        }
    }
}

/// Equality of well-formed terms says exactly that they accept the same
/// selection states: the sign is read off the empty selection, and canonical
/// ranges are determined by their members.
pub proof fn lemma_term_eq_iff(a: Term, b: Term)
    requires
        a.wf(),
        b.wf(),
    ensures
        a.eq_spec(&b) <==> a.equivalent_to(b),
{
    lemma_range_eq_iff(a.range_of(), b.range_of());
    if a.eq_spec(&b) {
        assert forall|v: Option<Version>| a.accepts(v) == b.accepts(v) by {
            match v {
                Option::Some(x) => {
                    assert(a.range_of().spec_contains(x) == b.range_of().spec_contains(x));
                },
                Option::None => {},
            }
        }
    }
    if a.equivalent_to(b) {
        assert(a.accepts(Option::None) == b.accepts(Option::None));
        assert forall|x: u64| #[trigger] a.range_of().spec_contains(x)
            == b.range_of().spec_contains(x) by {
            assert(a.accepts(Option::Some(x)) == b.accepts(Option::Some(x)));
        }
    }
}

/// Describe a relation between a set of terms S and another term t.
///
/// As a shorthand, we say that a term v satisfies or contradicts a term t if
/// {v} satisfies or contradicts it.
#[derive(Clone, Copy, Debug, PartialEq, Eq, Structural)]
pub enum Relation {
    /// We say that a set of terms S "satisfies" a term t if t must be true
    /// whenever every term in S is true.
    Satisfied,
    /// Conversely, S "contradicts" t if t must be false whenever every term
    /// in S is true.
    Contradicted,
    /// If neither of these is true we say that S is "inconclusive" for t.
    Inconclusive,
}

impl Clone for Term {
    /// A clone carries a range equal to the original's, so it accepts the
    /// same selection states and is equal to the original.
    fn clone(&self) -> (r: Self)
        ensures
            r.eq_spec(self),
            forall|v: Option<Version>| #[trigger] r.accepts(v) == self.accepts(v),
    {
        match self {
            Term::Positive(range) => Term::Positive(range.clone()),
            Term::Negative(range) => Term::Negative(range.clone()),
        }
    }
}

impl PartialEq for Term {
    /// Terms are equal when they have the same sign and equal ranges.
    fn eq(&self, other: &Self) -> (r: bool) {
        match (self, other) {
            (Term::Positive(r1), Term::Positive(r2)) => *r1 == *r2,
            (Term::Negative(r1), Term::Negative(r2)) => *r1 == *r2,
            _ => false,
        }
    }
}

impl Eq for Term {}

impl vstd::std_specs::cmp::PartialEqSpecImpl for Term {
    open spec fn obeys_eq_spec() -> bool {
        true
    }

    open spec fn eq_spec(&self, other: &Self) -> bool {
        match (self, other) {
            (Term::Positive(r1), Term::Positive(r2)) => PartialEqSpec::eq_spec(r1, r2),
            (Term::Negative(r1), Term::Negative(r2)) => PartialEqSpec::eq_spec(r1, r2),
            _ => false,
        }
    }
}

} // verus!
