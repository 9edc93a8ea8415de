//! Sets of versions, closed under negation, intersection and union.
//!
//! A [`Range`] stores the strictly increasing list of boundary versions at
//! which membership flips, starting outside the set: a version belongs to
//! the set exactly when an odd number of boundaries lie at or below it.
//! The list `[1, 3]` is the half-open interval `[1, 3)`, the list `[5]` is
//! `[5, infinity)`, and the empty list is the empty set.  Every set of
//! versions expressible as a finite union of intervals has exactly one such
//! list, so structural equality of ranges coincides with equality of the
//! sets they stand for.

use vstd::prelude::*;
use vstd::std_specs::cmp::PartialEqSpec;

verus! {

/// A version is identified by a number; the algebra needs nothing of a
/// version beyond its total order.
pub type Version = u64;

/// A set of versions in canonical form.
#[derive(Debug)]
pub struct Range {
    bounds: Vec<u64>,
}

/// Every element is strictly below every later one.
spec fn strictly_increasing(bs: Seq<u64>) -> bool {
    forall|i: int, j: int| 0 <= i < j < bs.len() ==> bs[i] < bs[j]
}

/// Membership by parity: walking the boundaries from the front, each
/// boundary at or below `v` flips membership.
spec fn seq_mem(bs: Seq<u64>, v: u64) -> bool
    decreases bs.len(),
{
    if bs.len() == 0 {
        false
    } else if v < bs[0] {
        false
    } else {
        !seq_mem(bs.drop_first(), v)
    }
}

/// Appending a boundary above all existing ones flips membership for the
/// versions it covers and leaves the rest alone.
proof fn lemma_mem_push(s: Seq<u64>, b: u64, v: u64)
    requires
        forall|k: int| 0 <= k < s.len() ==> s[k] < b,
    ensures
        seq_mem(s.push(b), v) == (if b <= v {
            !seq_mem(s, v)
        } else {
            seq_mem(s, v)
        }),
    decreases s.len(),
{
    if s.len() == 0 {
        assert(s.push(b).drop_first() =~= Seq::<u64>::empty());
        assert(s.push(b)[0] == b);
        assert(!seq_mem(Seq::<u64>::empty(), v));
        assert(!seq_mem(s, v));
    } else {
        assert(s.push(b).drop_first() =~= s.drop_first().push(b));
        assert(s.push(b)[0] == s[0]);
        lemma_mem_push(s.drop_first(), b, v);
        if v < s[0] {
            assert(!seq_mem(s.push(b), v));
            assert(!seq_mem(s, v));
            assert(v < b);
        } else {
            assert(seq_mem(s.push(b), v) == !seq_mem(s.drop_first().push(b), v));
            assert(seq_mem(s, v) == !seq_mem(s.drop_first(), v));
        }
    }
}

/// When the boundaries up to position `i` are at or below `v` and all later
/// ones are above it, membership of `v` is the parity of `i`.
proof fn lemma_mem_window(bs: Seq<u64>, i: int, v: u64)
    requires
        0 <= i <= bs.len(),
        forall|k: int| 0 <= k < i ==> bs[k] <= v,
        forall|k: int| i <= k < bs.len() ==> v < bs[k],
    ensures
        seq_mem(bs, v) == (i % 2 == 1),
    decreases i,
{
    if i > 0 {
        lemma_mem_window(bs.drop_first(), i - 1, v);
    }
}

/// Two strictly increasing boundary lists with the same members are the
/// same list: the representation is canonical.
proof fn lemma_canonical(a: Seq<u64>, b: Seq<u64>)
    requires
        strictly_increasing(a),
        strictly_increasing(b),
        forall|v: u64| #![trigger seq_mem(a, v)] seq_mem(a, v) == seq_mem(b, v),
    ensures
        a == b,
    decreases a.len(),
{
    if a.len() == 0 && b.len() == 0 {
        assert(a =~= b);
    } else if a.len() == 0 {
        lemma_mem_window(b, 1, b[0]);
        assert(seq_mem(a, b[0]) == seq_mem(b, b[0]));
        assert(false);
    } else if b.len() == 0 {
        lemma_mem_window(a, 1, a[0]);
        assert(seq_mem(a, a[0]) == seq_mem(b, a[0]));
        assert(false);
    } else {
        if a[0] < b[0] {
            lemma_mem_window(a, 1, a[0]);
            lemma_mem_window(b, 0, a[0]);
            assert(seq_mem(a, a[0]) == seq_mem(b, a[0]));
            assert(false);
        }
        if b[0] < a[0] {
            lemma_mem_window(b, 1, b[0]);
            lemma_mem_window(a, 0, b[0]);
            assert(seq_mem(a, b[0]) == seq_mem(b, b[0]));
            assert(false);
        }
        assert(a[0] == b[0]);
        assert forall|v: u64| #![trigger seq_mem(a.drop_first(), v)]
            seq_mem(a.drop_first(), v) == seq_mem(b.drop_first(), v) by {
            if v < a[0] {
                lemma_mem_window(a.drop_first(), 0, v);
                lemma_mem_window(b.drop_first(), 0, v);
            } else {
                assert(seq_mem(a, v) == seq_mem(b, v));
            }
        }
        lemma_canonical(a.drop_first(), b.drop_first());
        assert(a =~= b) by {
            assert(forall|k: int| 1 <= k < a.len() ==> a[k] == a.drop_first()[k - 1]);
            assert(forall|k: int| 1 <= k < b.len() ==> b[k] == b.drop_first()[k - 1]);
        }
    }
}

impl Range {
    /// Canonical form: the boundary list is strictly increasing.
    #[verifier::type_invariant]
    pub closed spec fn wf(self) -> bool {
        strictly_increasing(self.bounds@)
    }

    /// The mathematical model of a range: whether version `v` lies in it.
    pub closed spec fn spec_contains(self, v: u64) -> bool {
        seq_mem(self.bounds@, v)
    }

    /// The empty set of versions.
    pub fn none() -> (r: Range)
        ensures
            forall|v: u64| !#[trigger] r.spec_contains(v),
    {
        Range { bounds: Vec::new() }
    }

    /// The set of all versions.
    pub fn any() -> (r: Range)
        ensures
            forall|v: u64| #[trigger] r.spec_contains(v),
    {
        Range::higher_than(0)
    }

    /// All versions at or above `v`.
    pub fn higher_than(v: u64) -> (r: Range)
        ensures
            forall|x: u64| #[trigger] r.spec_contains(x) == (v <= x),
    {
        let mut bounds: Vec<u64> = Vec::new();
        bounds.push(v);
        proof {
            assert forall|x: u64| seq_mem(bounds@, x) == (v <= x) by {
                assert(bounds@[0] == v);
                assert(bounds@.drop_first() =~= Seq::<u64>::empty());
                assert(!seq_mem(Seq::<u64>::empty(), x));
            }
        }
        Range { bounds }
    }

    /// All versions strictly below `v`.
    pub fn strictly_lower_than(v: u64) -> (r: Range)
        ensures
            forall|x: u64| #[trigger] r.spec_contains(x) == (x < v),
    {
        Range::between(0, v)
    }

    /// The half-open interval of versions `lo <= x < hi`; empty when
    /// `hi <= lo`.
    pub fn between(lo: u64, hi: u64) -> (r: Range)
        ensures
            forall|x: u64| #[trigger] r.spec_contains(x) == (lo <= x < hi),
    {
        let mut bounds: Vec<u64> = Vec::new();
        if lo < hi {
            bounds.push(lo);
            bounds.push(hi);
            proof {
                assert forall|x: u64| seq_mem(bounds@, x) == (lo <= x < hi) by {
                    assert(bounds@[0] == lo);
                    assert(bounds@.drop_first() =~= seq![hi]);
                    assert(seq![hi][0] == hi);
                    assert(seq![hi].drop_first() =~= Seq::<u64>::empty());
                    assert(!seq_mem(Seq::<u64>::empty(), x));
                    assert(seq_mem(seq![hi], x) == (hi <= x));
                }
            }
        }
        Range { bounds }
    }

    /// Exactly the version `v`.
    pub fn exact(v: u64) -> (r: Range)
        ensures
            forall|x: u64| #[trigger] r.spec_contains(x) == (x == v),
    {
        if v == u64::MAX {
            Range::higher_than(v)
        } else {
            Range::between(v, v + 1)
        }
    }

    /// Whether the range holds version `v`.
    pub fn contains(&self, v: &u64) -> (r: bool)
        ensures
            r == self.spec_contains(*v),
    {
        proof {
            use_type_invariant(self);
        }
        let mut i: usize = 0;
        let mut inside: bool = false;
        while i < self.bounds.len()
            invariant
                i <= self.bounds@.len(),
                strictly_increasing(self.bounds@),
                inside == seq_mem(self.bounds@.take(i as int), *v),
            decreases self.bounds@.len() - i,
        {
            if self.bounds[i] <= *v {
                inside = !inside;
            }
            proof {
                let pre = self.bounds@.take(i as int);
                assert(self.bounds@.take(i as int + 1) =~= pre.push(self.bounds@[i as int]));
                assert(forall|k: int| 0 <= k < pre.len() ==> pre[k] < self.bounds@[i as int]);
                lemma_mem_push(pre, self.bounds@[i as int], *v);
            }
            i = i + 1;
        }
        proof {
            assert(self.bounds@.take(self.bounds@.len() as int) =~= self.bounds@);
        }
        inside
    }

    /// The complement: all versions this range does not hold.
    pub fn negate(&self) -> (r: Range)
        ensures
            forall|v: u64| #[trigger] r.spec_contains(v) == !self.spec_contains(v),
    {
        proof {
            use_type_invariant(self);
        }
        let n: usize = self.bounds.len();
        let mut out: Vec<u64> = Vec::new();
        if n > 0 && self.bounds[0] == 0 {
            let mut k: usize = 1;
            while k < n
                invariant
                    1 <= k <= n == self.bounds@.len(),
                    strictly_increasing(self.bounds@),
                    out@ == self.bounds@.subrange(1, k as int),
                decreases n - k,
            {
                let x: u64 = self.bounds[k];
                out.push(x);
                proof {
                    assert(out@ =~= self.bounds@.subrange(1, k as int + 1));
                }
                k = k + 1;
            }
            proof {
                assert(out@ =~= self.bounds@.drop_first());
                assert forall|v: u64| seq_mem(out@, v) == !seq_mem(self.bounds@, v) by {
                    assert(v >= self.bounds@[0]);
                }
            }
            Range { bounds: out }
        } else {
            out.push(0);
            let mut k: usize = 0;
            while k < n
                invariant
                    k <= n == self.bounds@.len(),
                    strictly_increasing(self.bounds@),
                    n == 0 || self.bounds@[0] > 0,
                    out@ == seq![0u64].add(self.bounds@.take(k as int)),
                decreases n - k,
            {
                let x: u64 = self.bounds[k];
                out.push(x);
                proof {
                    assert(out@ =~= seq![0u64].add(self.bounds@.take(k as int + 1)));
                }
                k = k + 1;
            }
            proof {
                assert(out@ =~= seq![0u64].add(self.bounds@));
                assert(out@[0] == 0);
                assert(out@.drop_first() =~= self.bounds@);
                assert(strictly_increasing(out@)) by {
                    assert(forall|k2: int| 1 <= k2 < out@.len() ==> out@[k2] == self.bounds@[k2 - 1]);
                    assert(forall|k2: int| 0 <= k2 < self.bounds@.len() ==> self.bounds@[k2] > 0);
                }
                assert(forall|v: u64| #[trigger] seq_mem(out@, v) == !seq_mem(self.bounds@, v));
            }
            Range { bounds: out }
        }
    }

    /// The sweep that merges two boundary lists: `keep_union` selects the
    /// union of the two sets, otherwise their intersection.
    fn combined(&self, other: &Range, keep_union: bool) -> (r: Range)
        ensures
            forall|v: u64| #[trigger] r.spec_contains(v) == comb(
                self.spec_contains(v),
                other.spec_contains(v),
                keep_union,
            ),
    {
        proof {
            use_type_invariant(self);
            use_type_invariant(other);
        }
        let a_len: usize = self.bounds.len();
        let b_len: usize = other.bounds.len();
        let mut out: Vec<u64> = Vec::new();
        let mut i: usize = 0;
        let mut j: usize = 0;
        proof {
            assert forall|v: u64| ((0 < a_len ==> v < self.bounds@[0]) && (0 < b_len ==> v
                < other.bounds@[0])) implies #[trigger] seq_mem(out@, v) == comb(
                seq_mem(self.bounds@, v),
                seq_mem(other.bounds@, v),
                keep_union,
            ) by {
                lemma_mem_window(self.bounds@, 0, v);
                lemma_mem_window(other.bounds@, 0, v);
                lemma_mem_window(out@, 0, v);
            }
        }
        while i < a_len || j < b_len
            invariant
                a_len == self.bounds@.len(),
                b_len == other.bounds@.len(),
                strictly_increasing(self.bounds@),
                strictly_increasing(other.bounds@),
                i <= a_len,
                j <= b_len,
                strictly_increasing(out@),
                (out@.len() % 2 == 1) == comb(i % 2 == 1, j % 2 == 1, keep_union),
                forall|k: int| i <= k < a_len && out@.len() > 0 ==> out@.last() < self.bounds@[k],
                forall|k: int| j <= k < b_len && out@.len() > 0 ==> out@.last() < other.bounds@[k],
                forall|k: int, k2: int|
                    0 <= k < i && j <= k2 < b_len ==> self.bounds@[k] < other.bounds@[k2],
                forall|k: int, k2: int|
                    0 <= k < j && i <= k2 < a_len ==> other.bounds@[k] < self.bounds@[k2],
                forall|v: u64|
                    ((i < a_len ==> v < self.bounds@[i as int]) && (j < b_len ==> v
                        < other.bounds@[j as int])) ==> #[trigger] seq_mem(out@, v) == comb(
                        seq_mem(self.bounds@, v),
                        seq_mem(other.bounds@, v),
                        keep_union,
                    ),
            decreases a_len + b_len - i - j,
        {
            let pick_a = i < a_len && (j >= b_len || self.bounds[i] <= other.bounds[j]);
            let pick_b = j < b_len && (i >= a_len || other.bounds[j] <= self.bounds[i]);
            let m: u64 = if pick_a {
                self.bounds[i]
            } else {
                other.bounds[j]
            };
            let ni: usize = if pick_a {
                i + 1
            } else {
                i
            };
            let nj: usize = if pick_b {
                j + 1
            } else {
                j
            };
            let in_a = ni % 2 == 1;
            let in_b = nj % 2 == 1;
            let new_inside = if keep_union {
                in_a || in_b
            } else {
                in_a && in_b
            };
            let cur_inside = out.len() % 2 == 1;
            let ghost old_out = out@;
            let ghost av = self.bounds@;
            let ghost bv = other.bounds@;
            proof {
                // The boundary consumed now is above everything emitted so far
                // and at or below every boundary still to come.
                assert(out@.len() > 0 ==> old_out.last() < m);
                assert(i < a_len ==> m <= av[i as int]);
                assert(j < b_len ==> m <= bv[j as int]);
                assert(forall|k: int| 0 <= k < ni ==> av[k] <= m);
                assert(forall|k: int| 0 <= k < nj ==> bv[k] <= m);
                assert(forall|k: int| ni <= k < a_len ==> m < av[k]);
                assert(forall|k: int| nj <= k < b_len ==> m < bv[k]);
            }
            if new_inside != cur_inside {
                out.push(m);
            }
            proof {
                assert(strictly_increasing(out@)) by {
                    assert(forall|k: int|
                        0 <= k < old_out.len() && old_out.len() > 0 ==> old_out[k]
                            <= old_out.last());
                }
                assert(forall|k: int| 0 <= k < out@.len() ==> out@[k] <= m);
                assert((out@.len() % 2 == 1) == comb(ni % 2 == 1, nj % 2 == 1, keep_union));
                assert forall|v: u64| ((ni < a_len ==> v < av[ni as int]) && (nj < b_len ==> v
                    < bv[nj as int])) implies #[trigger] seq_mem(out@, v) == comb(
                    seq_mem(av, v),
                    seq_mem(bv, v),
                    keep_union,
                ) by {
                    if (i < a_len ==> v < av[i as int]) && (j < b_len ==> v < bv[j as int]) {
                        // Below the boundary consumed now: nothing changed.
                        assert(seq_mem(old_out, v) == comb(seq_mem(av, v), seq_mem(bv, v), keep_union));
                        if out@ != old_out {
                            assert(out@ == old_out.push(m));
                            assert(v < m);
                            lemma_mem_push(old_out, m, v);
                        }
                    } else {
                        // At or above it: membership on each side is the
                        // parity of the boundaries consumed.
                        assert(m <= v);
                        lemma_mem_window(av, ni as int, v);
                        lemma_mem_window(bv, nj as int, v);
                        lemma_mem_window(out@, out@.len() as int, v);
                    }
                }
            }
            i = ni;
            j = nj;
        }
        proof {
            assert forall|v: u64| #[trigger] seq_mem(out@, v) == comb(
                seq_mem(self.bounds@, v),
                seq_mem(other.bounds@, v),
                keep_union,
            ) by {
                assert((i < a_len ==> v < self.bounds@[i as int]) && (j < b_len ==> v
                    < other.bounds@[j as int]));
            }
        }
        Range { bounds: out }
    }

    /// The versions held by both ranges.
    pub fn intersection(&self, other: &Range) -> (r: Range)
        ensures
            forall|v: u64| #[trigger] r.spec_contains(v) == (self.spec_contains(v)
                && other.spec_contains(v)),
    {
        self.combined(other, false)
    }

    /// The versions held by at least one of the two ranges.
    pub fn union(&self, other: &Range) -> (r: Range)
        ensures
            forall|v: u64| #[trigger] r.spec_contains(v) == (self.spec_contains(v)
                || other.spec_contains(v)),
    {
        self.combined(other, true)
    }
}

/// Conjunction or disjunction, selected by `keep_union`.
spec fn comb(x: bool, y: bool, keep_union: bool) -> bool {
    if keep_union {
        x || y
    } else {
        x && y
    }
}

/// Equality of ranges says exactly that they hold the same versions: the
/// canonical form makes the set determine the representation.
pub proof fn lemma_range_eq_iff(a: Range, b: Range)
    requires
        a.wf(),
        b.wf(),
    ensures
        a.eq_spec(&b) <==> (forall|v: u64| #[trigger] a.spec_contains(v) == b.spec_contains(v)),
{
    if forall|v: u64| #[trigger] a.spec_contains(v) == b.spec_contains(v) {
        assert forall|v: u64| #[trigger] seq_mem(a.bounds@, v) == seq_mem(b.bounds@, v) by {
            assert(a.spec_contains(v) == b.spec_contains(v));
        }
        lemma_canonical(a.bounds@, b.bounds@);
    }
}

impl Clone for Range {
    /// A clone holds exactly the versions of the original and is equal to
    /// it.
    fn clone(&self) -> (r: Self)
        ensures
            r.eq_spec(self),
            forall|v: u64| #[trigger] r.spec_contains(v) == self.spec_contains(v),
    {
        proof {
            use_type_invariant(self);
        }
        let bounds = self.bounds.clone();
        proof {
            assert(bounds@ =~= self.bounds@);
        }
        Range { bounds }
    }
}

impl PartialEq for Range {
    /// Ranges are equal exactly when their boundary lists are.
    fn eq(&self, other: &Self) -> (r: bool) {
        if self.bounds.len() != other.bounds.len() {
            return false;
        }
        let mut k: usize = 0;
        while k < self.bounds.len()
            invariant
                k <= self.bounds@.len(),
                self.bounds@.len() == other.bounds@.len(),
                forall|t: int| 0 <= t < k ==> self.bounds@[t] == other.bounds@[t],
            decreases self.bounds@.len() - k,
        {
            if self.bounds[k] != other.bounds[k] {
                return false;
            }
            k = k + 1;
        }
        proof {
            assert(self.bounds@ =~= other.bounds@);
        }
        true
    }
}

impl Eq for Range {}

impl vstd::std_specs::cmp::PartialEqSpecImpl for Range {
    open spec fn obeys_eq_spec() -> bool {
        true
    }

    closed spec fn eq_spec(&self, other: &Self) -> bool {
        self.bounds@ == other.bounds@
    }
}

} // verus!
