//! Completion from a fixed, caller-supplied list of choices: no filesystem
//! access and no caching.

use vstd::prelude::*;

verus! {

use crate::filter::{WeightedMatch, all_wf, sort_matches, weight_ge};
use crate::filter::spaced::{SpacedFilter, MatchModel, spec_matched, models_of, model_ge};
use crate::completer::sorted_desc_models;
use crate::ring_buffer::RingBuffer;

/// The matches of `q` against the raw choices, in order, keeping only the
/// ones that matched.
pub open spec fn choice_match_results(q: Seq<char>, cands: Seq<Seq<char>>) -> Seq<MatchModel>
    decreases cands.len(),
{
    if cands.len() == 0 {
        Seq::empty()
    } else {
        let rest = choice_match_results(q, cands.drop_first());
        match spec_matched(q, cands[0]) {
            None => rest,
            Some(m) => seq![m] + rest,
        }
    }
}

pub struct ListCompleter {
    choices: Vec<String>,
}

impl ListCompleter {
    /// The fixed choices this completer was built over.
    pub closed spec fn choices_view(&self) -> Seq<Seq<char>> {
        self.choices.deep_view()
    }

    pub fn new(choices: Vec<String>) -> (r: Self)
        ensures
            r.choices_view() == choices.deep_view(),
    {
        ListCompleter { choices }
    }

    pub fn label(&self) -> (r: String)
        ensures
            r@ == "list"@,
    {
        "list".to_owned()
    }

    /// Scores every choice against the query, drops the non-matches, and
    /// returns the annotated texts sorted by descending weight as a fresh
    /// selection ring.
    pub fn complete(&self, query: &str) -> (r: RingBuffer<String>)
        ensures
            r.wf(),
            r.cursor_index() == 0,
            exists|sorted: Seq<MatchModel>|
                {
                    &&& sorted.to_multiset() == choice_match_results(
                        query@,
                        self.choices_view(),
                    ).to_multiset()
                    &&& sorted_desc_models(sorted)
                    &&& r@.map_values(|s: String| s@) == sorted.map_values(|m: MatchModel| m.text)
                },
    {
        let ghost dv = self.choices.deep_view();
        let mut scored: Vec<WeightedMatch> = Vec::new();
        let mut i: usize = 0;
        proof {
            assert(dv.skip(0) =~= dv);
        }
        while i < self.choices.len()
            invariant
                i <= self.choices@.len(),
                dv == self.choices.deep_view(),
                dv.len() == self.choices@.len(),
                all_wf(scored@),
                models_of(scored@) + choice_match_results(query@, dv.skip(i as int))
                    == choice_match_results(query@, dv),
            decreases self.choices@.len() - i,
        {
            let ghost rest = dv.skip(i as int);
            proof {
                assert(rest[0] == dv[i as int]);
                assert(rest.drop_first() =~= dv.skip(i + 1));
                assert(dv[i as int] == self.choices@[i as int]@);
            }
            match SpacedFilter::matched(query, self.choices[i].as_str()) {
                None => {
                    proof {
                        assert(choice_match_results(query@, rest) == choice_match_results(
                            query@,
                            rest.drop_first(),
                        ));
                    }
                },
                Some(m) => {
                    let ghost before = scored@;
                    scored.push(m);
                    proof {
                        assert(models_of(scored@) =~= models_of(before).push(m.model()));
                        assert(models_of(before).push(m.model()) + choice_match_results(
                            query@,
                            rest.drop_first(),
                        ) =~= models_of(before) + (seq![m.model()] + choice_match_results(
                            query@,
                            rest.drop_first(),
                        )));
                    }
                },
            }
            i = i + 1;
        }
        proof {
            assert(dv.skip(self.choices@.len() as int) =~= Seq::<Seq<char>>::empty());
            assert(choice_match_results(query@, Seq::<Seq<char>>::empty())
                =~= Seq::<MatchModel>::empty());
            assert(models_of(scored@) + Seq::<MatchModel>::empty() =~= models_of(scored@));
        }
        let ghost scored_before_sort = scored@;
        let sorted = sort_matches(scored);
        let ghost sorted_models = models_of(sorted@);
        proof {
            crate::completer::lemma_models_multiset(sorted@, scored_before_sort);
            assert forall|i2: int, j2: int| 0 <= i2 < j2 < sorted_models.len() implies model_ge(
                #[trigger] sorted_models[i2],
                #[trigger] sorted_models[j2],
            ) by {
                assert(weight_ge(sorted@[i2], sorted@[j2]));
            }
        }
        let mut out: Vec<String> = Vec::new();
        let mut k: usize = 0;
        while k < sorted.len()
            invariant
                k <= sorted@.len(),
                sorted_models == models_of(sorted@),
                out@.len() == k,
                forall|j: int| 0 <= j < k ==> (#[trigger] out@[j])@ == sorted_models[j].text,
            decreases sorted@.len() - k,
        {
            let s = sorted[k].result.clone();
            out.push(s);
            k = k + 1;
        }
        proof {
            assert(out@.map_values(|s: String| s@) =~= sorted_models.map_values(
                |m: MatchModel| m.text,
            ));
            assert(sorted_models.to_multiset() == choice_match_results(
                query@,
                self.choices_view(),
            ).to_multiset());
            assert(sorted_desc_models(sorted_models));
        }
        RingBuffer::from_vec(out)
    }
}

} // verus!
