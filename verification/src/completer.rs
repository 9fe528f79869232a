//! Candidate sources: the per-root candidate cache, and the shared
//! completion pipeline that scores cached candidates against the live
//! query, sorts them by descending weight and returns a bounded selection
//! ring.

use vstd::prelude::*;

pub mod git;
pub mod list;
pub mod mixed;
pub mod recursive;

verus! {

use vstd::string::StrSliceExecFns;
use crate::filter::{WeightedMatch, all_wf, sort_matches, weight_ge};
use crate::filter::spaced::{SpacedFilter, MatchModel, spec_matched, models_of, model_ge};
use crate::ring_buffer::RingBuffer;
use crate::util::chars_of;

/// Whether two string slices hold the same characters.
pub fn str_eq(a: &str, b: &str) -> (r: bool)
    ensures
        r == (a@ == b@),
{
    let an = a.unicode_len();
    let bn = b.unicode_len();
    if an != bn {
        return false;
    }
    let mut i: usize = 0;
    while i < an
        invariant
            i <= an,
            an == a@.len(),
            an == b@.len(),
            forall|j: int| 0 <= j < i ==> a@[j] == b@[j],
        decreases an - i,
    {
        if a.get_char(i) != b.get_char(i) {
            return false;
        }
        i = i + 1;
    }
    proof {
        assert(a@ =~= b@);
    }
    true
}

/// The position of the first entry keyed by `r`, or -1 when there is none.
pub open spec fn find_key(s: Seq<(String, Vec<String>)>, r: Seq<char>) -> int
    decreases s.len(),
{
    if s.len() == 0 {
        -1
    } else if s[0].0@ == r {
        0
    } else {
        let t = find_key(s.drop_first(), r);
        if t < 0 {
            -1
        } else {
            t + 1
        }
    }
}

/// What `find_key` finds: a valid position whose key is `r`, before which
/// no entry is keyed by `r`; or -1 when no entry is.
proof fn lemma_find_key(s: Seq<(String, Vec<String>)>, r: Seq<char>)
    ensures
        find_key(s, r) >= 0 ==> {
            &&& find_key(s, r) < s.len()
            &&& s[find_key(s, r)].0@ == r
            &&& forall|j: int| 0 <= j < find_key(s, r) ==> (#[trigger] s[j]).0@ != r
        },
        find_key(s, r) < 0 ==> forall|j: int| 0 <= j < s.len() ==> (#[trigger] s[j]).0@ != r,
    decreases s.len(),
{
    if s.len() > 0 && s[0].0@ != r {
        lemma_find_key(s.drop_first(), r);
        let t = find_key(s.drop_first(), r);
        if t >= 0 {
            assert(s[t + 1] == s.drop_first()[t]);
            assert forall|j: int| 0 <= j < find_key(s, r) implies (#[trigger] s[j]).0@ != r by {
                if j > 0 {
                    assert(s[j] == s.drop_first()[j - 1]);
                }
            }
        } else {
            assert forall|j: int| 0 <= j < s.len() implies (#[trigger] s[j]).0@ != r by {
                if j > 0 {
                    assert(s[j] == s.drop_first()[j - 1]);
                }
            }
        }
    }
}

/// Appending an entry with a fresh key leaves every other lookup as it was
/// and makes the new key found at the end.
proof fn lemma_find_key_push(s: Seq<(String, Vec<String>)>, p: (String, Vec<String>), r: Seq<char>)
    ensures
        find_key(s, r) >= 0 ==> find_key(s.push(p), r) == find_key(s, r),
        find_key(s, r) < 0 && p.0@ == r ==> find_key(s.push(p), r) == s.len(),
        find_key(s, r) < 0 && p.0@ != r ==> find_key(s.push(p), r) < 0,
    decreases s.len(),
{
    if s.len() == 0 {
        assert(s.push(p).len() == 1);
        assert(s.push(p)[0] == p);
        assert(s.push(p).drop_first() =~= Seq::<(String, Vec<String>)>::empty());
        assert(find_key(s.push(p).drop_first(), r) == -1);
    } else {
        lemma_find_key_push(s.drop_first(), p, r);
        assert(s.push(p).drop_first() =~= s.drop_first().push(p));
        assert(s.push(p)[0] == s[0]);
        assert(find_key(s.push(p), r) == if s[0].0@ == r {
            0int
        } else {
            let t = find_key(s.drop_first().push(p), r);
            if t < 0 {
                -1int
            } else {
                t + 1
            }
        });
    }
}

/// The per-root memoized candidate enumeration: each distinct root is
/// scanned at most once for the life of the process, and entries are never
/// evicted or refreshed.
pub struct CandidateCache {
    entries: Vec<(String, Vec<String>)>,
}

impl CandidateCache {
    /// Each root is cached under at most one entry.
    pub closed spec fn wf(&self) -> bool {
        forall|i: int, j: int|
            0 <= i < j < self.entries@.len() ==> (#[trigger] self.entries@[i]).0@ != (
            #[trigger] self.entries@[j]).0@
    }

    /// Whether `r` has been scanned already.
    pub closed spec fn contains_root(&self, r: Seq<char>) -> bool {
        find_key(self.entries@, r) >= 0
    }

    /// The candidates cached for `r` (empty when `r` is not cached).
    pub closed spec fn entries_for(&self, r: Seq<char>) -> Seq<Seq<char>> {
        if find_key(self.entries@, r) >= 0 {
            self.entries@[find_key(self.entries@, r)].1.deep_view()
        } else {
            Seq::empty()
        }
    }

    pub fn new() -> (r: Self)
        ensures
            r.wf(),
            forall|k: Seq<char>| !r.contains_root(k),
    {
        CandidateCache { entries: Vec::new() }
    }

    /// Returns the candidates cached for `root`; on the first request for a
    /// root, runs `scan` once, stores its result, and returns it. A root
    /// already cached is answered from the cache, unchanged, without
    /// scanning.
    pub fn get_or_scan<F: FnOnce() -> Vec<String>>(&mut self, root: &str, scan: F) -> (r: Vec<
        String,
    >)
        requires
            old(self).wf(),
            call_requires(scan, ()),
        ensures
            final(self).wf(),
            final(self).contains_root(root@),
            r.deep_view() == final(self).entries_for(root@),
            old(self).contains_root(root@) ==> *final(self) == *old(self) && r.deep_view() == old(
                self,
            ).entries_for(root@),
            !old(self).contains_root(root@) ==> exists|v: Vec<String>|
                call_ensures(scan, (), v) && v.deep_view() == r.deep_view(),
            forall|k: Seq<char>|
                k != root@ ==> final(self).contains_root(k) == old(self).contains_root(k)
                    && final(self).entries_for(k) == old(self).entries_for(k),
    {
        proof {
            lemma_find_key(self.entries@, root@);
        }
        let n = self.entries.len();
        let mut i: usize = 0;
        while i < n
            invariant
                i <= n,
                *self == *old(self),
                self.wf(),
                n == self.entries@.len(),
                forall|j: int| 0 <= j < i ==> (#[trigger] self.entries@[j]).0@ != root@,
            decreases n - i,
        {
            if str_eq(self.entries[i].0.as_str(), root) {
                proof {
                    lemma_find_key(self.entries@, root@);
                    assert(find_key(self.entries@, root@) == i);
                }
                let cached = clone_string_vec(&self.entries[i].1);
                return cached;
            }
            i = i + 1;
        }
        proof {
            lemma_find_key(self.entries@, root@);
            assert(!self.contains_root(root@));
        }
        let scanned = scan();
        let stored = clone_string_vec(&scanned);
        let key = root.to_owned();
        let ghost before = self.entries@;
        self.entries.push((key, stored));
        proof {
            lemma_find_key_push(before, self.entries@[before.len() as int], root@);
            assert(find_key(self.entries@, root@) == before.len());
            assert(self.entries@[before.len() as int].1.deep_view() =~= scanned.deep_view());
            assert forall|k: Seq<char>| k != root@ implies final(self).contains_root(k) == old(
                self,
            ).contains_root(k) && final(self).entries_for(k) == old(self).entries_for(k) by {
                lemma_find_key_push(before, self.entries@[before.len() as int], k);
                lemma_find_key(before, k);
            }
            assert forall|i2: int, j2: int| 0 <= i2 < j2 < self.entries@.len() implies (
            #[trigger] self.entries@[i2]).0@ != (#[trigger] self.entries@[j2]).0@ by {
                lemma_find_key(before, root@);
                if j2 == self.entries@.len() - 1 {
                    assert(before[i2] == self.entries@[i2]);
                }
            }
        }
        scanned
    }
}

/// Every occurrence of "./" removed, scanning left to right.
pub open spec fn spec_replace_dot_slash(s: Seq<char>) -> Seq<char>
    decreases s.len(),
{
    if s.len() == 0 {
        s
    } else if s.len() >= 2 && s[0] == '.' && s[1] == '/' {
        spec_replace_dot_slash(s.skip(2))
    } else {
        seq![s[0]] + spec_replace_dot_slash(s.skip(1))
    }
}

/// Removes every occurrence of "./" from a candidate path.
pub fn replace_dot_slash(s: &str) -> (r: String)
    ensures
        r@ == spec_replace_dot_slash(s@),
{
    let cs = chars_of(s);
    let n = cs.len();
    let mut out: Vec<char> = Vec::new();
    let mut i: usize = 0;
    proof {
        assert(s@.skip(0) =~= s@);
    }
    while i < n
        invariant
            i <= n,
            n == s@.len(),
            cs@ == s@,
            spec_replace_dot_slash(s@) == out@ + spec_replace_dot_slash(s@.skip(i as int)),
        decreases n - i,
    {
        let ghost tail = s@.skip(i as int);
        if i + 1 < n && cs[i] == '.' && cs[i + 1] == '/' {
            proof {
                assert(tail.len() >= 2);
                assert(tail[0] == s@[i as int]);
                assert(tail[1] == s@[i + 1]);
                assert(tail.skip(2) =~= s@.skip(i + 2));
            }
            i = i + 2;
        } else {
            let ghost before = out@;
            out.push(cs[i]);
            proof {
                assert(tail[0] == s@[i as int]);
                assert(tail.skip(1) =~= s@.skip(i + 1));
                assert(before + (seq![s@[i as int]] + spec_replace_dot_slash(s@.skip(i + 1)))
                    =~= out@ + spec_replace_dot_slash(s@.skip(i + 1)));
            }
            i = i + 1;
        }
    }
    proof {
        assert(s@.skip(n as int) =~= Seq::<char>::empty());
        assert(spec_replace_dot_slash(Seq::<char>::empty()) =~= Seq::<char>::empty());
        assert(out@ + Seq::<char>::empty() =~= out@);
    }
    crate::util::string_of(&out)
}

/// The matches of `q` against the given candidates, each candidate first
/// cleaned of "./" occurrences, in candidate order, keeping only the ones
/// that matched.
pub open spec fn match_results(q: Seq<char>, cands: Seq<Seq<char>>) -> Seq<MatchModel>
    decreases cands.len(),
{
    if cands.len() == 0 {
        Seq::empty()
    } else {
        let rest = match_results(q, cands.drop_first());
        match spec_matched(q, spec_replace_dot_slash(cands[0])) {
            None => rest,
            Some(m) => seq![m] + rest,
        }
    }
}

/// Matches in descending weight order.
pub open spec fn sorted_desc_models(s: Seq<MatchModel>) -> bool {
    forall|i: int, j: int| 0 <= i < j < s.len() ==> model_ge(#[trigger] s[i], #[trigger] s[j])
}

/// Two lists of matches that are permutations of one another have
/// permuted models.
pub(crate) proof fn lemma_models_multiset(a: Seq<WeightedMatch>, b: Seq<WeightedMatch>)
    requires
        a.to_multiset() == b.to_multiset(),
    ensures
        models_of(a).to_multiset() == models_of(b).to_multiset(),
    decreases a.len(),
{
    broadcast use vstd::seq_lib::group_to_multiset_ensures;

    a.to_multiset_ensures();
    b.to_multiset_ensures();
    models_of(a).to_multiset_ensures();
    models_of(b).to_multiset_ensures();
    if a.len() == 0 {
        assert(b.to_multiset().len() == 0);
        assert(b.len() == 0);
        assert(models_of(a) =~= Seq::<MatchModel>::empty());
        assert(models_of(b) =~= Seq::<MatchModel>::empty());
        assert(models_of(a).to_multiset() =~= models_of(b).to_multiset());
    } else {
        let x = a[0];
        assert(a.contains(x));
        assert(a.to_multiset().count(x) > 0);
        assert(b.to_multiset().count(x) > 0);
        assert(b.contains(x));
        let i = choose|i: int| 0 <= i < b.len() && b[i] == x;
        assert(a.remove(0).to_multiset() =~= a.to_multiset().remove(x));
        assert(b.remove(i).to_multiset() =~= b.to_multiset().remove(x));
        assert(a.remove(0).to_multiset() == b.remove(i).to_multiset());
        lemma_models_multiset(a.remove(0), b.remove(i));
        assert(models_of(a.remove(0)) =~= models_of(a).remove(0));
        assert(models_of(b.remove(i)) =~= models_of(b).remove(i));
        let ma = models_of(a);
        let mb = models_of(b);
        assert(ma[0] == x.model());
        assert(mb[i] == x.model());
        assert(ma.remove(0).to_multiset() =~= ma.to_multiset().remove(x.model()));
        assert(mb.remove(i).to_multiset() =~= mb.to_multiset().remove(x.model()));
        assert(ma.contains(ma[0]));
        assert(ma.to_multiset().count(x.model()) > 0);
        assert(mb.contains(mb[i]));
        assert(mb.to_multiset().count(x.model()) > 0);
        assert forall|m: MatchModel| true implies ma.to_multiset().count(m) == mb.to_multiset()
            .count(m) by {
            if m == x.model() {
                assert(ma.to_multiset().remove(x.model()).count(m) == ma.to_multiset().count(m)
                    - 1);
                assert(mb.to_multiset().remove(x.model()).count(m) == mb.to_multiset().count(m)
                    - 1);
            } else {
                assert(ma.to_multiset().remove(x.model()).count(m) == ma.to_multiset().count(m));
                assert(mb.to_multiset().remove(x.model()).count(m) == mb.to_multiset().count(m));
            }
        }
        assert(ma.to_multiset() =~= mb.to_multiset());
    }
}

/// The number of results a bounded selection keeps.
pub open spec fn capped(limit: int, len: int) -> int {
    if limit <= len {
        limit
    } else {
        len
    }
}

/// The shared completion pipeline: a candidate cache plus the
/// score-sort-bound steps every strategy runs on its raw candidates.
pub struct CompleterBase {
    cache: CandidateCache,
}

impl CompleterBase {
    pub closed spec fn wf(&self) -> bool {
        self.cache.wf()
    }

    pub closed spec fn contains_root(&self, r: Seq<char>) -> bool {
        self.cache.contains_root(r)
    }

    pub closed spec fn entries_for(&self, r: Seq<char>) -> Seq<Seq<char>> {
        self.cache.entries_for(r)
    }

    pub fn new() -> (r: Self)
        ensures
            r.wf(),
            forall|k: Seq<char>| !r.contains_root(k),
    {
        CompleterBase { cache: CandidateCache::new() }
    }

    /// Completes `query` from the candidates cached for `root` (scanning
    /// once, via `completer`, on the first request): every cached candidate
    /// is cleaned of "./", scored against the query, non-matches are
    /// dropped, the rest are sorted by descending weight, and the annotated
    /// texts of the first `limit` fill a fresh selection ring.
    pub fn complete<F: FnOnce() -> Vec<String>>(
        &mut self,
        query: &str,
        root: &str,
        limit: usize,
        completer: F,
    ) -> (r: RingBuffer<String>)
        requires
            old(self).wf(),
            call_requires(completer, ()),
        ensures
            final(self).wf(),
            final(self).contains_root(root@),
            old(self).contains_root(root@) ==> *final(self) == *old(self),
            !old(self).contains_root(root@) ==> exists|v: Vec<String>|
                call_ensures(completer, (), v) && v.deep_view() == final(self).entries_for(root@),
            forall|k: Seq<char>|
                k != root@ ==> final(self).contains_root(k) == old(self).contains_root(k)
                    && final(self).entries_for(k) == old(self).entries_for(k),
            r.wf(),
            r.cursor_index() == 0,
            exists|sorted: Seq<MatchModel>|
                {
                    &&& sorted.to_multiset() == match_results(
                        query@,
                        final(self).entries_for(root@),
                    ).to_multiset()
                    &&& sorted_desc_models(sorted)
                    &&& r@.map_values(|s: String| s@) == sorted.map_values(
                        |m: MatchModel| m.text,
                    ).take(capped(limit as int, sorted.len() as int))
                },
    {
        let cands = self.cache.get_or_scan(root, completer);
        let ghost dv = cands.deep_view();
        let mut scored: Vec<WeightedMatch> = Vec::new();
        let mut i: usize = 0;
        proof {
            assert(dv.skip(0) =~= dv);
        }
        while i < cands.len()
            invariant
                i <= cands@.len(),
                dv == cands.deep_view(),
                dv.len() == cands@.len(),
                all_wf(scored@),
                models_of(scored@) + match_results(query@, dv.skip(i as int)) == match_results(
                    query@,
                    dv,
                ),
            decreases cands@.len() - i,
        {
            let ghost rest = dv.skip(i as int);
            proof {
                assert(rest[0] == dv[i as int]);
                assert(rest.drop_first() =~= dv.skip(i + 1));
                assert(dv[i as int] == cands@[i as int]@);
            }
            let cleaned = replace_dot_slash(cands[i].as_str());
            match SpacedFilter::matched(query, cleaned.as_str()) {
                None => {
                    proof {
                        assert(match_results(query@, rest) == match_results(
                            query@,
                            rest.drop_first(),
                        ));
                    }
                },
                Some(m) => {
                    let ghost before = scored@;
                    scored.push(m);
                    proof {
                        assert(models_of(scored@) =~= models_of(before).push(m.model()));
                        assert(models_of(before).push(m.model()) + match_results(
                            query@,
                            rest.drop_first(),
                        ) =~= models_of(before) + (seq![m.model()] + match_results(
                            query@,
                            rest.drop_first(),
                        )));
                    }
                },
            }
            i = i + 1;
        }
        proof {
            assert(dv.skip(cands@.len() as int) =~= Seq::<Seq<char>>::empty());
            assert(match_results(query@, Seq::<Seq<char>>::empty()) =~= Seq::<MatchModel>::empty());
            assert(models_of(scored@) + Seq::<MatchModel>::empty() =~= models_of(scored@));
        }
        let ghost scored_before_sort = scored@;
        let sorted = sort_matches(scored);
        let ghost sorted_models = models_of(sorted@);
        proof {
            lemma_models_multiset(sorted@, scored_before_sort);
            assert forall|i2: int, j2: int| 0 <= i2 < j2 < sorted_models.len() implies model_ge(
                #[trigger] sorted_models[i2],
                #[trigger] sorted_models[j2],
            ) by {
                assert(weight_ge(sorted@[i2], sorted@[j2]));
            }
        }
        let mut out: Vec<String> = Vec::new();
        let mut k: usize = 0;
        while k < limit && k < sorted.len()
            invariant
                k <= sorted@.len(),
                limit < sorted@.len() ==> k <= limit,
                sorted_models == models_of(sorted@),
                out@.len() == k,
                forall|j: int| 0 <= j < k ==> (#[trigger] out@[j])@ == sorted_models[j].text,
            decreases sorted@.len() - k,
        {
            let s = sorted[k].result.clone();
            out.push(s);
            k = k + 1;
        }
        proof {
            assert(out@.map_values(|s: String| s@) =~= sorted_models.map_values(
                |m: MatchModel| m.text,
            ).take(capped(limit as int, sorted_models.len() as int)));
            assert(models_of(scored_before_sort) == match_results(
                query@,
                self.entries_for(root@),
            ));
            assert(sorted_models.to_multiset() == match_results(
                query@,
                self.entries_for(root@),
            ).to_multiset());
            assert(sorted_desc_models(sorted_models));
        }
        RingBuffer::from_vec(out)
    }
}

/// A copy of a list of strings, character for character.
fn clone_string_vec(v: &Vec<String>) -> (r: Vec<String>)
    ensures
        r.deep_view() == v.deep_view(),
        r@.len() == v@.len(),
{
    let mut r: Vec<String> = Vec::new();
    let mut i: usize = 0;
    while i < v.len()
        invariant
            i <= v@.len(),
            r@.len() == i,
            forall|j: int| 0 <= j < i ==> (#[trigger] r@[j])@ == v@[j]@,
        decreases v@.len() - i,
    {
        let s = v[i].clone();
        r.push(s);
        i = i + 1;
    }
    proof {
        assert(r.deep_view() =~= v.deep_view());
    }
    r
}

} // verus!
