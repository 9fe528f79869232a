//! The fuzzy matcher: scores a query against a candidate by scanning the
//! candidate left to right and greedily consuming query characters,
//! case-insensitively (by case folding). A match that directly continues
//! a run earns a large bonus — the scan opens in a run, so a match on the
//! very first candidate character does too — and the first match after a
//! skipped candidate character earns a small one; any skipped character
//! resets the run. The candidate matches only if every query character is
//! consumed.

use vstd::prelude::*;

verus! {

use vstd::string::StrSliceExecFns;
use vstd::string::StringExecFns;
use crate::filter::{WeightedMatch, MAX_MATCH_LEN, spec_denom};
use crate::util::{eq_ci, chars_eq_ci, emph_seq, emphasize, chars_of, spec_is_separator,
    is_separator};

/// The exact content of a match, at the specification level: the weight
/// components and the annotated text.
pub ghost struct MatchModel {
    pub score: int,
    pub length: int,
    pub penalty: int,
    pub text: Seq<char>,
}

impl WeightedMatch {
    /// The specification-level content of this match.
    pub open spec fn model(&self) -> MatchModel {
        MatchModel {
            score: self.score as int,
            length: self.length as int,
            penalty: self.penalty as int,
            text: self.result@,
        }
    }
}

/// The state of the greedy scan: how many query characters have been
/// consumed, whether the previous candidate character matched, the score so
/// far, the index of the first matched character (-1 while none), and the
/// annotated text built so far.
pub ghost struct ScanState {
    pub qi: int,
    pub run: bool,
    pub score: int,
    pub first: int,
    pub text: Seq<char>,
}

pub open spec fn scan_init() -> ScanState {
    ScanState { qi: 0, run: true, score: 0, first: -1, text: Seq::empty() }
}

/// One step of the scan, looking at candidate character `c` at index `i`.
pub open spec fn scan_step(q: Seq<char>, st: ScanState, c: char, i: int) -> ScanState {
    if st.qi < q.len() && eq_ci(q[st.qi], c) {
        ScanState {
            qi: st.qi + 1,
            run: true,
            score: st.score + if st.run {
                10int
            } else {
                1int
            },
            first: if st.first < 0 {
                i
            } else {
                st.first
            },
            text: st.text + emph_seq(c),
        }
    } else {
        ScanState { run: false, text: st.text.push(c), ..st }
    }
}

/// The scan carried from index `i` to the end of the candidate.
pub open spec fn scan_from(q: Seq<char>, v: Seq<char>, i: int, st: ScanState) -> ScanState
    decreases v.len() - i,
{
    if i < 0 || i >= v.len() {
        st
    } else {
        scan_from(q, v, i + 1, scan_step(q, st, v[i], i))
    }
}

/// A leading "./" is stripped from the annotated text for display.
pub open spec fn strip_dot_slash(t: Seq<char>) -> Seq<char> {
    if t.len() >= 2 && t[0] == '.' && t[1] == '/' {
        t.skip(2)
    } else {
        t
    }
}

/// What the whole-string scan produces: `None` unless every query character
/// was consumed (or the candidate is too long to score exactly); otherwise
/// the score, the candidate length, the first-match penalty and the
/// annotated text.
pub open spec fn spec_weigh(q: Seq<char>, v: Seq<char>) -> Option<MatchModel> {
    let fin = scan_from(q, v, 0, scan_init());
    if v.len() <= MAX_MATCH_LEN && fin.qi == q.len() {
        Some(
            MatchModel {
                score: fin.score,
                length: v.len() as int,
                penalty: if fin.first < 0 {
                    1int
                } else {
                    fin.first + 1
                },
                text: strip_dot_slash(fin.text),
            },
        )
    } else {
        None
    }
}

/// The characters of `q` occur, case-insensitively, as an ordered
/// subsequence of `v` (not necessarily contiguously).
pub open spec fn is_subseq_ci(q: Seq<char>, v: Seq<char>) -> bool
    decreases q.len() + v.len(),
{
    if q.len() == 0 {
        true
    } else if v.len() == 0 {
        false
    } else if eq_ci(q[0], v[0]) {
        is_subseq_ci(q.drop_first(), v.drop_first())
    } else {
        is_subseq_ci(q, v.drop_first())
    }
}

/// The greedy scan consumes the whole query exactly when the query occurs
/// as a (case-insensitive) ordered subsequence of the candidate.
proof fn lemma_scan_completes(q: Seq<char>, v: Seq<char>, i: int, st: ScanState)
    requires
        0 <= i <= v.len(),
        0 <= st.qi <= q.len(),
    ensures
        scan_from(q, v, i, st).qi == q.len() <==> is_subseq_ci(q.skip(st.qi), v.skip(i)),
    decreases v.len() - i,
{
    if i == v.len() {
        assert(v.skip(i).len() == 0);
        if st.qi == q.len() {
            assert(q.skip(st.qi).len() == 0);
        } else {
            assert(q.skip(st.qi).len() > 0);
        }
    } else {
        let c = v[i];
        let st2 = scan_step(q, st, c, i);
        lemma_scan_completes(q, v, i + 1, st2);
        if st.qi < q.len() && eq_ci(q[st.qi], c) {
            assert(q.skip(st.qi).len() > 0);
            assert(v.skip(i).len() > 0);
            assert(q.skip(st.qi)[0] == q[st.qi]);
            assert(v.skip(i)[0] == v[i]);
            assert(q.skip(st.qi).drop_first() =~= q.skip(st.qi + 1));
            assert(v.skip(i).drop_first() =~= v.skip(i + 1));
        } else if st.qi == q.len() {
            assert(q.skip(st.qi).len() == 0);
        } else {
            assert(q.skip(st.qi).len() > 0);
            assert(v.skip(i).len() > 0);
            assert(!eq_ci(q.skip(st.qi)[0], v.skip(i)[0]));
            assert(v.skip(i).drop_first() =~= v.skip(i + 1));
        }
    }
}

/// `i` begins a token of `s`: a non-separator character that is either at
/// the front or directly after a separator.
pub open spec fn is_token_start(s: Seq<char>, i: int) -> bool {
    &&& 0 <= i < s.len()
    &&& !spec_is_separator(s[i])
    &&& (i == 0 || spec_is_separator(s[i - 1]))
}

/// The indices at or after `i` that begin a token of `s`, in order.
pub open spec fn token_starts_from(s: Seq<char>, i: int) -> Seq<int>
    decreases s.len() - i,
{
    if i < 0 || i >= s.len() {
        Seq::empty()
    } else if is_token_start(s, i) {
        seq![i] + token_starts_from(s, i + 1)
    } else {
        token_starts_from(s, i + 1)
    }
}

/// The indices that begin a token, in increasing order.
pub fn token_starts(chars: &Vec<char>) -> (r: Vec<usize>)
    ensures
        r@.map_values(|u: usize| u as int) == token_starts_from(chars@, 0),
        forall|j: int| 0 <= j < r@.len() ==> is_token_start(chars@, r@[j] as int),
{
    let mut r: Vec<usize> = Vec::new();
    let mut i: usize = 0;
    while i < chars.len()
        invariant
            i <= chars@.len(),
            forall|j: int| 0 <= j < r@.len() ==> is_token_start(chars@, r@[j] as int),
            r@.map_values(|u: usize| u as int) + token_starts_from(chars@, i as int)
                == token_starts_from(chars@, 0),
        decreases chars@.len() - i,
    {
        let starts_here = !is_separator(chars[i]) && (i == 0 || is_separator(chars[i - 1]));
        if starts_here {
            let ghost before = r@;
            r.push(i);
            proof {
                assert(r@.map_values(|u: usize| u as int) =~= before.map_values(|u: usize| u as int)
                    + seq![i as int]);
                assert(before.map_values(|u: usize| u as int) + (seq![i as int]
                    + token_starts_from(chars@, i + 1)) =~= r@.map_values(|u: usize| u as int)
                    + token_starts_from(chars@, i + 1));
            }
        }
        i = i + 1;
    }
    proof {
        assert(r@.map_values(|u: usize| u as int) + token_starts_from(chars@, i as int)
            =~= r@.map_values(|u: usize| u as int));
    }
    r
}

/// An anchored match: the scan run on the candidate's tail from `off`, with
/// the unmatched head re-attached to the annotated text. The weight is that
/// of the tail alone.
pub open spec fn spec_offset_match(q: Seq<char>, v: Seq<char>, off: int) -> Option<MatchModel> {
    match spec_weigh(q, v.skip(off)) {
        None => None,
        Some(m) => Some(MatchModel { text: v.take(off) + m.text, ..m }),
    }
}

/// The anchored matches of `q` against `v` at the given offsets, in order,
/// keeping only the ones that matched.
pub open spec fn anchored_models(q: Seq<char>, v: Seq<char>, starts: Seq<int>) -> Seq<MatchModel>
    decreases starts.len(),
{
    if starts.len() == 0 {
        Seq::empty()
    } else {
        let rest = anchored_models(q, v, starts.drop_first());
        match spec_offset_match(q, v, starts[0]) {
            None => rest,
            Some(m) => seq![m] + rest,
        }
    }
}

/// The weight order on match models; the same cross-multiplied comparison
/// as `weight_ge`.
pub open spec fn model_ge(a: MatchModel, b: MatchModel) -> bool {
    a.score * a.score * spec_denom(b.length, b.penalty) >= b.score * b.score * spec_denom(
        a.length,
        a.penalty,
    )
}

pub open spec fn model_gt(a: MatchModel, b: MatchModel) -> bool {
    !model_ge(b, a)
}

/// The index of the first model of maximal weight in `s.take(n)`.
pub open spec fn best_model_upto(s: Seq<MatchModel>, n: int) -> int
    decreases n,
{
    if n <= 1 {
        0
    } else {
        let b = best_model_upto(s, n - 1);
        if model_gt(s[n - 1], s[b]) {
            n - 1
        } else {
            b
        }
    }
}

/// The first model of maximal weight: the one a stable descending-weight
/// sort would put first.
pub open spec fn spec_best_model(s: Seq<MatchModel>) -> MatchModel {
    s[best_model_upto(s, s.len() as int)]
}

/// The models of a list of matches.
pub open spec fn models_of(s: Seq<WeightedMatch>) -> Seq<MatchModel> {
    s.map_values(|m: WeightedMatch| m.model())
}

/// `best_index_upto` on matches agrees with `best_model_upto` on their
/// models.
proof fn lemma_best_index_model(s: Seq<WeightedMatch>, n: int)
    requires
        1 <= n <= s.len(),
    ensures
        crate::filter::best_index_upto(s, n) == best_model_upto(models_of(s), n),
    decreases n,
{
    if n > 1 {
        lemma_best_index_model(s, n - 1);
        let b = crate::filter::best_index_upto(s, n - 1);
        assert(0 <= b < n) by {
            lemma_best_upto_range(s, n - 1);
        }
        assert(models_of(s)[n - 1] == s[n - 1].model());
        assert(models_of(s)[b] == s[b].model());
        assert(crate::filter::weight_gt(s[n - 1], s[b]) == model_gt(
            s[n - 1].model(),
            s[b].model(),
        ));
    }
}

/// The first-maximum index stays within the prefix it is taken over.
proof fn lemma_best_upto_range(s: Seq<WeightedMatch>, n: int)
    requires
        1 <= n <= s.len(),
    ensures
        0 <= crate::filter::best_index_upto(s, n) < n,
    decreases n,
{
    if n > 1 {
        lemma_best_upto_range(s, n - 1);
    }
}

/// The full match of a query against a candidate: the whole-string scan and
/// an anchored scan at every token start, keeping the heaviest (the
/// whole-string match on a tie). `None` exactly when the query does not
/// occur as an ordered subsequence of the candidate.
pub open spec fn spec_matched(q: Seq<char>, v: Seq<char>) -> Option<MatchModel> {
    match spec_weigh(q, v) {
        None => None,
        Some(w) => Some(
            spec_best_model(seq![w] + anchored_models(q, v, token_starts_from(v, 0))),
        ),
    }
}

/// `q`'s characters occur, case-insensitively, as an ordered subsequence
/// of `v`: some strictly increasing choice of positions matches each query
/// character in turn.
pub open spec fn occurs_as_subsequence(q: Seq<char>, v: Seq<char>) -> bool {
    exists|f: Seq<int>|
        {
            &&& f.len() == q.len()
            &&& forall|k: int| 0 <= k < f.len() ==> 0 <= #[trigger] f[k] < v.len()
            &&& forall|k: int| 0 <= k < f.len() - 1 ==> #[trigger] f[k] < f[k + 1]
            &&& forall|k: int| 0 <= k < f.len() ==> eq_ci(q[k], v[#[trigger] f[k]])
        }
}

/// One direction: a successful greedy test yields an increasing match
/// map.
proof fn lemma_subseq_gives_occurs(q: Seq<char>, v: Seq<char>)
    requires
        is_subseq_ci(q, v),
    ensures
        occurs_as_subsequence(q, v),
    decreases q.len() + v.len(),
{
    if q.len() == 0 {
        let f = Seq::<int>::empty();
        assert(f.len() == q.len() && (forall|k: int| 0 <= k < f.len() ==> 0 <= #[trigger] f[k]
            < v.len()) && (forall|k: int| 0 <= k < f.len() - 1 ==> #[trigger] f[k] < f[k + 1]) && (
        forall|k: int| 0 <= k < f.len() ==> eq_ci(q[k], v[#[trigger] f[k]])));
    } else {
        let qt = q.drop_first();
        let vt = v.drop_first();
        if eq_ci(q[0], v[0]) {
            lemma_subseq_gives_occurs(qt, vt);
            let g = choose|f: Seq<int>|
                {
                    &&& f.len() == qt.len()
                    &&& forall|k: int| 0 <= k < f.len() ==> 0 <= #[trigger] f[k] < vt.len()
                    &&& forall|k: int| 0 <= k < f.len() - 1 ==> #[trigger] f[k] < f[k + 1]
                    &&& forall|k: int| 0 <= k < f.len() ==> eq_ci(qt[k], vt[#[trigger] f[k]])
                };
            let f = seq![0int] + g.map_values(|x: int| x + 1);
            assert(f.len() == q.len());
            assert(forall|k: int| 1 <= k < f.len() ==> #[trigger] f[k] == g[k - 1] + 1);
            assert(f[0] == 0);
            assert forall|k: int| 0 <= k < f.len() implies 0 <= #[trigger] f[k] < v.len() by {
                if k >= 1 {
                    assert(0 <= g[k - 1] < vt.len());
                }
            }
            assert forall|k: int| 0 <= k < f.len() - 1 implies #[trigger] f[k] < f[k + 1] by {
                if k >= 1 {
                    assert(g[k - 1] < g[k]);
                } else {
                    assert(0 <= g[0]);
                }
            }
            assert forall|k: int| 0 <= k < f.len() implies eq_ci(q[k], v[#[trigger] f[k]]) by {
                if k >= 1 {
                    assert(eq_ci(qt[k - 1], vt[g[k - 1]]));
                    assert(qt[k - 1] == q[k]);
                    assert(vt[g[k - 1]] == v[g[k - 1] + 1]);
                }
            }
        } else {
            lemma_subseq_gives_occurs(q, vt);
            let g = choose|f: Seq<int>|
                {
                    &&& f.len() == q.len()
                    &&& forall|k: int| 0 <= k < f.len() ==> 0 <= #[trigger] f[k] < vt.len()
                    &&& forall|k: int| 0 <= k < f.len() - 1 ==> #[trigger] f[k] < f[k + 1]
                    &&& forall|k: int| 0 <= k < f.len() ==> eq_ci(q[k], vt[#[trigger] f[k]])
                };
            let f = g.map_values(|x: int| x + 1);
            assert(f.len() == q.len());
            assert(forall|k: int| 0 <= k < f.len() ==> #[trigger] f[k] == g[k] + 1);
            assert forall|k: int| 0 <= k < f.len() implies eq_ci(q[k], v[#[trigger] f[k]]) by {
                assert(eq_ci(q[k], vt[g[k]]));
                assert(vt[g[k]] == v[g[k] + 1]);
            }
            assert(forall|k: int| 0 <= k < f.len() ==> 0 <= #[trigger] f[k] < v.len());
            assert(forall|k: int| 0 <= k < f.len() - 1 ==> #[trigger] f[k] < f[k + 1]);
        }
    }
}

/// The other direction: any increasing match map means the greedy test
/// succeeds.
proof fn lemma_occurs_gives_subseq(q: Seq<char>, v: Seq<char>)
    requires
        occurs_as_subsequence(q, v),
    ensures
        is_subseq_ci(q, v),
    decreases q.len() + v.len(),
{
    if q.len() == 0 {
    } else {
        let f = choose|f: Seq<int>|
            {
                &&& f.len() == q.len()
                &&& forall|k: int| 0 <= k < f.len() ==> 0 <= #[trigger] f[k] < v.len()
                &&& forall|k: int| 0 <= k < f.len() - 1 ==> #[trigger] f[k] < f[k + 1]
                &&& forall|k: int| 0 <= k < f.len() ==> eq_ci(q[k], v[#[trigger] f[k]])
            };
        assert(0 <= f[0] < v.len());
        let qt = q.drop_first();
        let vt = v.drop_first();
        if eq_ci(q[0], v[0]) {
            let g = f.drop_first().map_values(|x: int| x - 1);
            assert(g.len() == qt.len());
            assert(forall|k: int| 0 <= k < g.len() ==> #[trigger] g[k] == f[k + 1] - 1);
            assert forall|k: int| 0 <= k < g.len() implies 0 <= #[trigger] g[k] < vt.len() by {
                assert(f[k] < f[k + 1]);
                assert(0 <= f[k]);
                assert(f[k + 1] < v.len());
            }
            assert forall|k: int| 0 <= k < g.len() - 1 implies #[trigger] g[k] < g[k + 1] by {
                assert(f[k + 1] < f[k + 2]);
            }
            assert forall|k: int| 0 <= k < g.len() implies eq_ci(qt[k], vt[#[trigger] g[k]]) by {
                assert(eq_ci(q[k + 1], v[f[k + 1]]));
                assert(qt[k] == q[k + 1]);
                assert(f[k] < f[k + 1] && 0 <= f[k]);
                assert(vt[f[k + 1] - 1] == v[f[k + 1]]);
            }
            assert(occurs_as_subsequence(qt, vt));
            lemma_occurs_gives_subseq(qt, vt);
        } else {
            assert(f[0] != 0) by {
                if f[0] == 0 {
                    assert(eq_ci(q[0], v[0]));
                }
            }
            let g = f.map_values(|x: int| x - 1);
            assert(g.len() == q.len());
            assert(forall|k: int| 0 <= k < g.len() ==> #[trigger] g[k] == f[k] - 1);
            assert forall|k: int| 0 <= k < g.len() implies 0 <= #[trigger] g[k] < vt.len() by {
                if k == 0 {
                    assert(f[0] >= 1);
                } else {
                    assert(f[k] > f[k - 1]);
                    assert(f[k - 1] >= 0);
                }
            }
            assert forall|k: int| 0 <= k < g.len() implies eq_ci(q[k], vt[#[trigger] g[k]]) by {
                assert(eq_ci(q[k], v[f[k]]));
                if k == 0 {
                    assert(f[0] >= 1);
                } else {
                    assert(f[k] > f[k - 1] >= 0);
                }
                assert(vt[f[k] - 1] == v[f[k]]);
            }
            assert(forall|k: int| 0 <= k < g.len() - 1 ==> #[trigger] g[k] < g[k + 1]);
            assert(occurs_as_subsequence(q, vt));
            lemma_occurs_gives_subseq(q, vt);
        }
    }
}

/// The recursive subsequence test agrees with the existence of an
/// increasing match map.
pub proof fn lemma_subseq_iff_occurs(q: Seq<char>, v: Seq<char>)
    ensures
        is_subseq_ci(q, v) <==> occurs_as_subsequence(q, v),
{
    if is_subseq_ci(q, v) {
        lemma_subseq_gives_occurs(q, v);
    }
    if occurs_as_subsequence(q, v) {
        lemma_occurs_gives_subseq(q, v);
    }
}

/// A query matches a candidate (scoring aside) exactly when its
/// characters occur, case-insensitively, as an ordered subsequence of the
/// candidate; candidates too long to score exactly never match.
pub proof fn lemma_matched_iff_occurs(q: Seq<char>, v: Seq<char>)
    ensures
        (spec_matched(q, v) is Some) <==> (v.len() <= MAX_MATCH_LEN && occurs_as_subsequence(
            q,
            v,
        )),
{
    lemma_scan_completes(q, v, 0, scan_init());
    assert(q.skip(0) =~= q);
    assert(v.skip(0) =~= v);
    lemma_subseq_iff_occurs(q, v);
}

/// A unit type used as the namespace of the fuzzy filter's operations.
pub struct SpacedFilter;

impl SpacedFilter {
    /// Scores `query` against `value` by the greedy case-insensitive scan.
    /// Returns `None` exactly when the query's characters do not occur as an
    /// ordered subsequence of the candidate (or the candidate is longer than
    /// `MAX_MATCH_LEN` characters).
    pub fn weigh(query: &str, value: &str) -> (r: Option<WeightedMatch>)
        ensures
            match r {
                None => spec_weigh(query@, value@) is None,
                Some(m) => {
                    &&& spec_weigh(query@, value@) == Some(m.model())
                    &&& m.original@ == value@
                    &&& m.wf()
                },
            },
            (r is Some) <==> (value@.len() <= MAX_MATCH_LEN && is_subseq_ci(query@, value@)),
    {
        proof {
            lemma_scan_completes(query@, value@, 0, scan_init());
            assert(query@.skip(0) =~= query@);
            assert(value@.skip(0) =~= value@);
        }
        let qchars = chars_of(query);
        let vchars = chars_of(value);
        let n = vchars.len();
        if n > MAX_MATCH_LEN {
            return None;
        }
        let qlen = qchars.len();
        let mut qi: usize = 0;
        let mut run: bool = true;
        let mut score: u64 = 0;
        let mut first: Option<usize> = None;
        let mut result = String::new();
        let mut i: usize = 0;
        while i < n
            invariant
                i <= n,
                n == value@.len(),
                n <= MAX_MATCH_LEN,
                qlen == query@.len(),
                qchars@ == query@,
                vchars@ == value@,
                qi <= qlen,
                score <= 10 * i,
                match first {
                    None => true,
                    Some(k) => k < i,
                },
                scan_from(query@, value@, 0, scan_init()) == scan_from(
                    query@,
                    value@,
                    i as int,
                    ScanState {
                        qi: qi as int,
                        run: run,
                        score: score as int,
                        first: match first {
                            None => -1int,
                            Some(k) => k as int,
                        },
                        text: result@,
                    },
                ),
            decreases n - i,
        {
            let c = vchars[i];
            if qi < qlen && chars_eq_ci(qchars[qi], c) {
                let bonus: u64 = if run {
                    10
                } else {
                    1
                };
                score = score + bonus;
                if first.is_none() {
                    first = Some(i);
                }
                run = true;
                qi = qi + 1;
                let e = emphasize(c);
                result.append(e.as_str());
            } else {
                run = false;
                push_result(&mut result, c);
            }
            i = i + 1;
        }
        if qi != qlen {
            return None;
        }
        let stripped = strip_leading_dot_slash(result);
        let penalty: u64 = match first {
            None => 1,
            Some(k) => (k as u64) + 1,
        };
        Some(
            WeightedMatch {
                score,
                length: n as u64,
                penalty,
                result: stripped,
                original: value.to_owned(),
            },
        )
    }
}

impl SpacedFilter {
    /// Scores `query` against the tail of `value` from `offset`, then
    /// re-attaches the unmatched head to the annotated text.
    fn offset_match(query: &str, value: &str, offset: usize) -> (r: Option<WeightedMatch>)
        requires
            offset <= value@.len(),
        ensures
            match r {
                None => spec_offset_match(query@, value@, offset as int) is None,
                Some(m) => {
                    &&& spec_offset_match(query@, value@, offset as int) == Some(m.model())
                    &&& m.original@ == value@.skip(offset as int)
                    &&& m.wf()
                },
            },
    {
        let n = value.unicode_len();
        let tail = value.substring_char(offset, n);
        proof {
            assert(tail@ =~= value@.skip(offset as int));
        }
        match Self::weigh(query, tail) {
            None => None,
            Some(m) => {
                let mut prefixed = value.substring_char(0, offset).to_owned();
                proof {
                    assert(prefixed@ =~= value@.take(offset as int));
                }
                prefixed.append(m.result.as_str());
                Some(WeightedMatch { result: prefixed, ..m })
            },
        }
    }

    /// Matches `query` against `value`: the whole-string scan and an
    /// anchored scan at every token start of the candidate, returning the
    /// heaviest result (the whole-string match on a tie). `None` exactly
    /// when the query's characters do not occur, case-insensitively, as an
    /// ordered subsequence of the candidate (or the candidate is longer
    /// than `MAX_MATCH_LEN` characters). The returned match's untouched
    /// text is what the winning scan saw: the whole candidate when the
    /// whole-string scan won, the candidate's tail from the anchor when an
    /// anchored scan did.
    pub fn matched(query: &str, value: &str) -> (r: Option<WeightedMatch>)
        ensures
            match r {
                None => spec_matched(query@, value@) is None,
                Some(m) => {
                    &&& spec_matched(query@, value@) == Some(m.model())
                    &&& m.wf()
                    &&& exists|off: int|
                        0 <= off <= value@.len() && m.original@ == value@.skip(off)
                },
            },
            (r is Some) <==> (value@.len() <= MAX_MATCH_LEN && is_subseq_ci(query@, value@)),
    {
        let first = match Self::weigh(query, value) {
            None => {
                return None;
            },
            Some(m) => m,
        };
        let ghost wmod = first.model();
        let ghost q = query@;
        let ghost v = value@;
        let mut ms: Vec<WeightedMatch> = Vec::new();
        proof {
            assert(v.skip(0) =~= v);
        }
        ms.push(first);
        let vchars = chars_of(value);
        let starts = token_starts(&vchars);
        let ghost gstarts = token_starts_from(v, 0);
        let mut k: usize = 0;
        proof {
            assert(gstarts.skip(0) =~= gstarts);
        }
        while k < starts.len()
            invariant
                k <= starts@.len(),
                starts@.map_values(|u: usize| u as int) == gstarts,
                forall|j: int| 0 <= j < starts@.len() ==> is_token_start(v, starts@[j] as int),
                q == query@,
                v == value@,
                vchars@ == v,
                ms@.len() >= 1,
                crate::filter::all_wf(ms@),
                forall|j: int|
                    0 <= j < ms@.len() ==> exists|off: int|
                        0 <= off <= v.len() && (#[trigger] ms@[j]).original@ == v.skip(off),
                models_of(ms@) + anchored_models(q, v, gstarts.skip(k as int)) == seq![wmod]
                    + anchored_models(q, v, gstarts),
            decreases starts@.len() - k,
        {
            let off = starts[k];
            let ghost rest = gstarts.skip(k as int);
            proof {
                assert(rest[0] == gstarts[k as int]);
                assert(rest.drop_first() =~= gstarts.skip(k + 1 as int));
            }
            match Self::offset_match(query, value, off) {
                None => {
                    proof {
                        assert(anchored_models(q, v, rest) == anchored_models(
                            q,
                            v,
                            rest.drop_first(),
                        ));
                    }
                },
                Some(m) => {
                    let ghost before = ms@;
                    ms.push(m);
                    proof {
                        assert(models_of(ms@) =~= models_of(before).push(m.model()));
                        assert(models_of(before).push(m.model()) + anchored_models(
                            q,
                            v,
                            rest.drop_first(),
                        ) =~= models_of(before) + (seq![m.model()] + anchored_models(
                            q,
                            v,
                            rest.drop_first(),
                        )));
                    }
                },
            }
            k = k + 1;
        }
        proof {
            assert(gstarts.skip(starts@.len() as int) =~= Seq::<int>::empty());
            assert(anchored_models(q, v, Seq::<int>::empty()) =~= Seq::<MatchModel>::empty());
            assert(models_of(ms@) + Seq::<MatchModel>::empty() =~= models_of(ms@));
            assert(models_of(ms@) == seq![wmod] + anchored_models(q, v, gstarts));
            lemma_best_index_model(ms@, ms@.len() as int);
            assert(models_of(ms@)[crate::filter::spec_best_index(ms@)] == spec_best_model(
                models_of(ms@),
            ));
        }
        let idx = crate::filter::best_index(&ms);
        let best = ms.remove(idx);
        Some(best)
    }
}

fn push_result(s: &mut String, c: char)
    ensures
        final(s)@ == old(s)@.push(c),
{
    crate::util::push_char(s, c);
}

/// Removes a leading "./" from an annotated result, for display.
fn strip_leading_dot_slash(s: String) -> (r: String)
    ensures
        r@ == strip_dot_slash(s@),
{
    let n = s.as_str().unicode_len();
    if n >= 2 {
        let c0 = s.as_str().get_char(0);
        let c1 = s.as_str().get_char(1);
        if c0 == '.' && c1 == '/' {
            let rest = s.as_str().substring_char(2, n);
            proof {
                assert(rest@ =~= s@.skip(2));
            }
            return rest.to_owned();
        }
    }
    s
}

} // verus!
