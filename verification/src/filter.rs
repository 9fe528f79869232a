//! Scored fuzzy matches and their ordering.
//!
//! A match's weight is the score accumulated while scanning the candidate,
//! divided by the square root of the candidate's length and by the 1-based
//! index of the first matched character. Weights are kept exact: a
//! `WeightedMatch` stores the integer score, the candidate length and the
//! first-match penalty, and two weights are compared by cross-multiplying
//! the squared scores with the opposite denominators, which orders them
//! exactly as the real-valued quotients would.

use vstd::prelude::*;

pub mod spaced;

verus! {

use vstd::arithmetic::mul::{lemma_mul_upper_bound, lemma_mul_nonnegative,
    lemma_mul_strictly_positive};

/// Candidates longer than this many characters never match; the bound keeps
/// every weight comparison exact within 128-bit arithmetic.
pub const MAX_MATCH_LEN: usize = 0x100_0000;

/// A candidate that matched the query, with its display-annotated text, the
/// untouched candidate text, and the exact weight components.
pub struct WeightedMatch {
    /// Sum of the per-character match bonuses.
    pub score: u64,
    /// The candidate's length in characters.
    pub length: u64,
    /// The 1-based index of the first matched character (1 when nothing
    /// matched).
    pub penalty: u64,
    /// The candidate with each matched character wrapped in emphasis markup.
    pub result: String,
    /// The candidate as it was given.
    pub original: String,
}

/// The squared denominator of a weight: `length * penalty^2`, taken as 1 for
/// an empty candidate (whose score is always 0).
pub open spec fn spec_denom(length: int, penalty: int) -> int {
    if length == 0 {
        1
    } else {
        length * penalty * penalty
    }
}

/// `a`'s weight is at least `b`'s: `score_a^2 / denom_a >= score_b^2 / denom_b`,
/// stated by cross-multiplication.
pub open spec fn weight_ge(a: WeightedMatch, b: WeightedMatch) -> bool {
    a.score * a.score * spec_denom(b.length as int, b.penalty as int) >= b.score * b.score
        * spec_denom(a.length as int, a.penalty as int)
}

/// `a`'s weight is strictly greater than `b`'s.
pub open spec fn weight_gt(a: WeightedMatch, b: WeightedMatch) -> bool {
    !weight_ge(b, a)
}

impl WeightedMatch {
    /// The weight components a match produced by the scan always has: the
    /// score is at most ten points per candidate character, the first-match
    /// penalty is a 1-based index into the candidate, and the candidate is
    /// short enough for exact comparison.
    pub open spec fn wf(&self) -> bool {
        &&& self.length <= MAX_MATCH_LEN
        &&& self.score <= 10 * self.length
        &&& 1 <= self.penalty
        &&& self.penalty as int <= if self.length == 0 {
            1int
        } else {
            self.length as int
        }
    }

    /// Whether this match's weight is at least `other`'s.
    pub fn ge(&self, other: &WeightedMatch) -> (r: bool)
        requires
            self.wf(),
            other.wf(),
        ensures
            r == weight_ge(*self, *other),
    {
        proof {
            lemma_weight_terms_bounded(*self, *other);
            lemma_weight_terms_bounded(*other, *self);
        }
        let lhs: u128 = (self.score as u128) * (self.score as u128) * denom_u128(other);
        let rhs: u128 = (other.score as u128) * (other.score as u128) * denom_u128(self);
        lhs >= rhs
    }

    /// Orders two matches for a descending-weight sort, as a stable
    /// `sort_by` comparator would: `Less` when `self` outweighs `other`.
    pub fn cmp(&self, other: &WeightedMatch) -> (r: core::cmp::Ordering)
        requires
            self.wf(),
            other.wf(),
        ensures
            r == core::cmp::Ordering::Less <==> weight_gt(*self, *other),
            r == core::cmp::Ordering::Greater <==> weight_gt(*other, *self),
            r == core::cmp::Ordering::Equal <==> (weight_ge(*self, *other) && weight_ge(
                *other,
                *self,
            )),
    {
        let self_ge = self.ge(other);
        let other_ge = other.ge(self);
        if !other_ge {
            core::cmp::Ordering::Less
        } else if !self_ge {
            core::cmp::Ordering::Greater
        } else {
            proof {
                lemma_weight_ge_total(*self, *other);
            }
            core::cmp::Ordering::Equal
        }
    }
}

/// The denominator of a weight, computed exactly.
fn denom_u128(w: &WeightedMatch) -> (r: u128)
    requires
        w.wf(),
    ensures
        r == spec_denom(w.length as int, w.penalty as int),
        r >= 1,
{
    if w.length == 0 {
        1
    } else {
        proof {
            lemma_mul_upper_bound(w.length as int, MAX_MATCH_LEN as int, w.penalty as int,
                MAX_MATCH_LEN as int);
            lemma_mul_upper_bound(w.length as int * w.penalty as int,
                MAX_MATCH_LEN as int * MAX_MATCH_LEN as int, w.penalty as int,
                MAX_MATCH_LEN as int);
            lemma_mul_nonnegative(w.length as int, w.penalty as int);
            lemma_mul_strictly_positive(w.length as int, w.penalty as int);
            lemma_mul_strictly_positive(w.length as int * w.penalty as int, w.penalty as int);
        }
        (w.length as u128) * (w.penalty as u128) * (w.penalty as u128)
    }
}

/// The cross-multiplied comparison terms stay below `2^127`.
proof fn lemma_weight_terms_bounded(a: WeightedMatch, b: WeightedMatch)
    requires
        a.wf(),
        b.wf(),
    ensures
        0 <= a.score * a.score < u128::MAX,
        0 <= a.score * a.score * spec_denom(b.length as int, b.penalty as int) < u128::MAX,
        spec_denom(b.length as int, b.penalty as int) >= 1,
{
    assert((10 * (MAX_MATCH_LEN as int)) * (10 * (MAX_MATCH_LEN as int)) < u128::MAX)
        by (nonlinear_arith);
    let s = a.score as int;
    let d = spec_denom(b.length as int, b.penalty as int);
    let m = MAX_MATCH_LEN as int;
    lemma_mul_upper_bound(s, 10 * m, s, 10 * m);
    if b.length == 0 {
    } else {
        lemma_mul_upper_bound(b.length as int, m, b.penalty as int, m);
        lemma_mul_upper_bound(b.length as int * b.penalty as int, m * m, b.penalty as int, m);
        lemma_mul_strictly_positive(b.length as int, b.penalty as int);
        lemma_mul_strictly_positive(b.length as int * b.penalty as int, b.penalty as int);
    }
    lemma_mul_nonnegative(s, s);
    lemma_mul_nonnegative(s * s, d);
    lemma_mul_upper_bound(s * s, 10 * m * (10 * m), d, m * m * m);
    assert(10 * m * (10 * m) * (m * m * m) < u128::MAX) by (nonlinear_arith)
        requires
            m == MAX_MATCH_LEN as int,
    ;
    lemma_mul_upper_bound(s * s, 10 * m * (10 * m), d, m * m * m);
}

/// The weight order is total: of any two well-formed matches, one weighs at
/// least as much as the other.
pub proof fn lemma_weight_ge_total(a: WeightedMatch, b: WeightedMatch)
    requires
        a.wf(),
        b.wf(),
    ensures
        weight_ge(a, b) || weight_ge(b, a),
{
}

/// The weight order is transitive.
pub proof fn lemma_weight_ge_trans(a: WeightedMatch, b: WeightedMatch, c: WeightedMatch)
    requires
        a.wf(),
        b.wf(),
        c.wf(),
        weight_ge(a, b),
        weight_ge(b, c),
    ensures
        weight_ge(a, c),
{
    let sa = a.score * a.score;
    let sb = b.score * b.score;
    let sc = c.score * c.score;
    let da = spec_denom(a.length as int, a.penalty as int);
    let db = spec_denom(b.length as int, b.penalty as int);
    let dc = spec_denom(c.length as int, c.penalty as int);
    lemma_weight_terms_bounded(a, b);
    lemma_weight_terms_bounded(b, c);
    lemma_weight_terms_bounded(b, a);
    lemma_weight_terms_bounded(c, b);
    lemma_mul_nonnegative(a.score as int, a.score as int);
    lemma_mul_nonnegative(b.score as int, b.score as int);
    lemma_mul_nonnegative(c.score as int, c.score as int);
    assert(sa * dc >= sc * da) by (nonlinear_arith)
        requires
            sa * db >= sb * da,
            sb * dc >= sc * db,
            da >= 1,
            db >= 1,
            dc >= 1,
            sa >= 0,
            sb >= 0,
            sc >= 0,
    ;
}

/// Every element of `s` is a well-formed match.
pub open spec fn all_wf(s: Seq<WeightedMatch>) -> bool {
    forall|i: int| 0 <= i < s.len() ==> (#[trigger] s[i]).wf()
}

/// `s` is ordered by descending weight.
pub open spec fn sorted_desc(s: Seq<WeightedMatch>) -> bool {
    forall|i: int, j: int| 0 <= i < j < s.len() ==> weight_ge(#[trigger] s[i], #[trigger] s[j])
}

/// The index of the first element of `s.take(n)` of maximal weight.
pub open spec fn best_index_upto(s: Seq<WeightedMatch>, n: int) -> int
    decreases n,
{
    if n <= 1 {
        0
    } else {
        let b = best_index_upto(s, n - 1);
        if weight_gt(s[n - 1], s[b]) {
            n - 1
        } else {
            b
        }
    }
}

/// The index of the first element of maximal weight, as a stable
/// descending-weight sort followed by taking the head would select it.
pub open spec fn spec_best_index(s: Seq<WeightedMatch>) -> int {
    best_index_upto(s, s.len() as int)
}

proof fn lemma_best_index_upto(s: Seq<WeightedMatch>, n: int)
    requires
        all_wf(s),
        1 <= n <= s.len(),
    ensures
        0 <= best_index_upto(s, n) < n,
        forall|j: int| 0 <= j < n ==> weight_ge(s[best_index_upto(s, n)], #[trigger] s[j]),
    decreases n,
{
    if n <= 1 {
        lemma_weight_ge_total(s[0], s[0]);
    } else {
        lemma_best_index_upto(s, n - 1);
        let b = best_index_upto(s, n - 1);
        let bn = best_index_upto(s, n);
        lemma_weight_ge_total(s[n - 1], s[b]);
        lemma_weight_ge_total(s[bn], s[bn]);
        assert forall|j: int| 0 <= j < n implies weight_ge(s[bn], #[trigger] s[j]) by {
            if weight_gt(s[n - 1], s[b]) {
                if j < n - 1 {
                    lemma_weight_ge_trans(s[n - 1], s[b], s[j]);
                }
            } else {
                if j == n - 1 {
                    lemma_weight_ge_total(s[n - 1], s[b]);
                }
            }
        }
    }
}

/// The first index of maximal weight in a non-empty list of matches.
pub fn best_index(v: &Vec<WeightedMatch>) -> (r: usize)
    requires
        all_wf(v@),
        v@.len() > 0,
    ensures
        r as int == spec_best_index(v@),
        r < v@.len(),
        forall|j: int| 0 <= j < v@.len() ==> weight_ge(v@[r as int], #[trigger] v@[j]),
{
    let mut best: usize = 0;
    let mut i: usize = 1;
    while i < v.len()
        invariant
            all_wf(v@),
            v@.len() > 0,
            1 <= i <= v@.len(),
            best < i,
            best as int == best_index_upto(v@, i as int),
        decreases v@.len() - i,
    {
        if v[i].ge(&v[best]) && !v[best].ge(&v[i]) {
            best = i;
        }
        i = i + 1;
    }
    proof {
        lemma_best_index_upto(v@, v@.len() as int);
    }
    best
}

/// Sorts matches by descending weight; the result is a permutation of the
/// input. Ties are left in an unspecified order.
pub fn sort_matches(v: Vec<WeightedMatch>) -> (r: Vec<WeightedMatch>)
    requires
        all_wf(v@),
    ensures
        all_wf(r@),
        sorted_desc(r@),
        r@.to_multiset() == v@.to_multiset(),
        r@.len() == v@.len(),
    {
    broadcast use vstd::seq_lib::group_to_multiset_ensures;

    let mut rest = v;
    let ghost orig = rest@;
    let mut out: Vec<WeightedMatch> = Vec::new();
    while rest.len() > 0
        invariant
            all_wf(rest@),
            all_wf(out@),
            sorted_desc(out@),
            out@.to_multiset().add(rest@.to_multiset()) == orig.to_multiset(),
            out@.len() + rest@.len() == orig.len(),
            forall|i: int, j: int|
                0 <= i < out@.len() && 0 <= j < rest@.len() ==> weight_ge(
                    #[trigger] out@[i],
                    #[trigger] rest@[j],
                ),
        decreases rest@.len(),
    {
        let m = best_index(&rest);
        let ghost rest_before = rest@;
        let ghost out_before = out@;
        let x = rest.remove(m);
        out.push(x);
        proof {
            assert forall|i: int, j: int|
                0 <= i < out@.len() && 0 <= j < rest@.len() implies weight_ge(
                #[trigger] out@[i],
                #[trigger] rest@[j],
            ) by {
                let jj = if j < m { j } else { j + 1 };
                assert(rest@[j] == rest_before[jj]);
                if i < out@.len() - 1 {
                    lemma_weight_ge_trans(out@[i], x, rest_before[jj]);
                }
            }
            rest_before.to_multiset_ensures();
            out_before.to_multiset_ensures();
            assert(rest@ == rest_before.remove(m as int));
            assert(rest_before.contains(x));
            assert(rest_before.to_multiset().count(x) > 0);
            assert(rest@.to_multiset() =~= rest_before.to_multiset().remove(x));
            assert(out@.to_multiset() =~= out_before.to_multiset().insert(x));
            assert(out@.to_multiset().add(rest@.to_multiset()) =~= orig.to_multiset());
        }
    }
    proof {
        assert(out@.to_multiset() =~= orig.to_multiset());
    }
    out
}

} // verus!
