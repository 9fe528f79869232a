//! The dispatching completer: holds a mode and picks among the repository
//! and recursive strategies. `Auto` resolves to the repository strategy
//! when a repository root is resolvable for the current query, else to the
//! recursive one; asking for the repository strategy outside a repository
//! yields no candidates. The repository-root query itself is outside work
//! the caller performs between `prepare` and `complete`.

use vstd::prelude::*;

verus! {

use crate::completer::git::GitCompleter;
use crate::completer::recursive::RecursiveCompleter;
use crate::completer::{match_results, sorted_desc_models, capped};
use crate::filter::spaced::MatchModel;
use crate::ring_buffer::RingBuffer;
use crate::util::search_root;

/// Which completion strategy is active: the repository walk, the plain
/// recursive walk, or whichever of the two fits the query.
pub enum Mode {
    Git,
    Recursive,
    Auto,
}

/// Whether a repository root was resolved: a non-empty toplevel answer.
pub open spec fn spec_git_allowed(git_top: Option<Seq<char>>) -> bool {
    match git_top {
        Some(t) => t.len() > 0,
        None => false,
    }
}

pub struct MixedCompleter {
    pub git: GitCompleter,
    pub recursive: RecursiveCompleter,
    pub mode: Mode,
    pub root: String,
}

impl MixedCompleter {
    pub open spec fn wf(&self) -> bool {
        self.git.wf() && self.recursive.wf()
    }

    pub open spec fn spec_mode(&self) -> Mode {
        self.mode
    }

    pub open spec fn spec_root(&self) -> Seq<char> {
        self.root@
    }

    /// Sets the mode outright; nothing else changes.
    pub fn mode(&mut self, mode: Mode)
        requires
            old(self).wf(),
        ensures
            final(self).wf(),
            final(self).spec_mode() == mode,
            final(self).spec_root() == old(self).spec_root(),
            final(self).git == old(self).git,
            final(self).recursive == old(self).recursive,
    {
        self.mode = mode;
    }

    /// Cycles the mode: Recursive, then Git, then Auto, then Recursive
    /// again; nothing else changes, the strategies and their caches
    /// included.
    pub fn toggle_mode(&mut self)
        requires
            old(self).wf(),
        ensures
            final(self).wf(),
            final(self).spec_root() == old(self).spec_root(),
            final(self).git == old(self).git,
            final(self).recursive == old(self).recursive,
            final(self).spec_mode() == match old(self).spec_mode() {
                Mode::Recursive => Mode::Git,
                Mode::Git => Mode::Auto,
                Mode::Auto => Mode::Recursive,
            },
    {
        self.mode = match self.mode {
            Mode::Recursive => Mode::Git,
            Mode::Git => Mode::Auto,
            Mode::Auto => Mode::Recursive,
        };
    }

    /// The label shown for the effective strategy.
    pub fn label(&self, git_allowed: bool) -> (r: String)
        ensures
            r@ == match self.spec_mode() {
                Mode::Auto => if git_allowed {
                    "auto [git]"@
                } else {
                    "auto [rec]"@
                },
                Mode::Git => "git"@,
                Mode::Recursive => "recursive"@,
            },
    {
        match self.mode {
            Mode::Auto => if git_allowed {
                "auto [git]".to_owned()
            } else {
                "auto [rec]".to_owned()
            },
            Mode::Git => "git".to_owned(),
            Mode::Recursive => "recursive".to_owned(),
        }
    }

    /// Resolves and adopts the search root for this query — for the
    /// repository strategy as well, pending its toplevel answer — and hands
    /// it back so the caller can run the repository-toplevel query under it
    /// before calling `complete`.
    pub fn prepare(&mut self, query: &str, home: Option<&String>) -> (r: String)
        requires
            old(self).wf(),
        ensures
            final(self).wf(),
            final(self).spec_mode() == old(self).spec_mode(),
            final(self).recursive == old(self).recursive,
            final(self).git.spec_root() == final(self).spec_root(),
            final(self).git.spec_max_depth() == old(self).git.spec_max_depth(),
            forall|k: Seq<char>|
                final(self).git.contains_root(k) == old(self).git.contains_root(k) && final(self).git.entries_for(k) == old(self).git.entries_for(k),
            r@ == final(self).spec_root(),
    {
        let root = search_root(query, home);
        self.root = root.clone();
        self.git.update_root(root.as_str(), None);
        root
    }

    /// Completes `query` under the prepared root with the active strategy:
    /// `Git` uses the repository walk, or yields no candidates when no
    /// repository root was resolved; `Recursive` always uses the plain
    /// walk; `Auto` uses the repository walk exactly when a root was
    /// resolved, else the plain walk. `git_top` is the repository-toplevel
    /// answer for the prepared root, canonical_query the canonicalized
    /// form of the query the strategies score against.
    pub fn complete(
        &mut self,
        canonical_query: &str,
        limit: usize,
        home: Option<&String>,
        git_top: Option<&String>,
    ) -> (r: RingBuffer<String>)
        requires
            old(self).wf(),
        ensures
            final(self).wf(),
            final(self).spec_mode() == old(self).spec_mode(),
            final(self).spec_root() == old(self).spec_root(),
            r.wf(),
            r.cursor_index() == 0,
            ({
                let allowed = spec_git_allowed(match git_top {
                    None => None,
                    Some(t) => Some(t@),
                });
                if (old(self).spec_mode() is Git || old(self).spec_mode() is Auto) && allowed {
                    // the repository walk answered, under the resolved toplevel
                    let key = final(self).git.spec_root() + seq!['/'];
                    &&& final(self).recursive == old(self).recursive
                    &&& (match git_top {
                        Some(t) => final(self).git.spec_root() == t@,
                        None => false,
                    })
                    &&& (old(self).git.contains_root(key) ==> forall|k: Seq<char>|
                        final(self).git.contains_root(k) == old(self).git.contains_root(k)
                            && final(self).git.entries_for(k) == old(self).git.entries_for(k))
                    &&& (forall|k: Seq<char>|
                        k != key ==> final(self).git.contains_root(k) == old(self).git.contains_root(k) && final(self).git.entries_for(k) == old(self).git.entries_for(k))
                    &&& exists|sorted: Seq<MatchModel>|
                        {
                            &&& final(self).git.contains_root(
                                final(self).git.spec_root() + seq!['/'],
                            )
                            &&& sorted.to_multiset() == match_results(
                                canonical_query@,
                                final(self).git.entries_for(
                                    final(self).git.spec_root() + seq!['/'],
                                ),
                            ).to_multiset()
                            &&& sorted_desc_models(sorted)
                            &&& r@.map_values(|s: String| s@) == sorted.map_values(
                                |m: MatchModel| m.text,
                            ).take(capped(limit as int, sorted.len() as int))
                        }
                } else if old(self).spec_mode() is Git {
                    // asked for the repository walk outside a repository
                    r@.len() == 0 && *final(self) == *old(self)
                } else {
                    // the plain recursive walk answered
                    &&& final(self).git == old(self).git
                    &&& exists|root: Seq<char>, sorted: Seq<MatchModel>|
                        {
                            &&& final(self).recursive.contains_root(root)
                            &&& (old(self).recursive.contains_root(root) ==> forall|k: Seq<char>|
                                final(self).recursive.contains_root(k) == old(self).recursive.contains_root(k) && final(self).recursive.entries_for(
                                    k,
                                ) == old(self).recursive.entries_for(k))
                            &&& (forall|k: Seq<char>|
                                k != root ==> final(self).recursive.contains_root(k) == old(self).recursive.contains_root(k) && final(self).recursive.entries_for(
                                    k,
                                ) == old(self).recursive.entries_for(k))
                            &&& sorted.to_multiset() == match_results(
                                canonical_query@,
                                final(self).recursive.entries_for(root),
                            ).to_multiset()
                            &&& sorted_desc_models(sorted)
                            &&& r@.map_values(|s: String| s@) == sorted.map_values(
                                |m: MatchModel| m.text,
                            ).take(capped(limit as int, sorted.len() as int))
                        }
                }
            }),
    {
        let git_allowed = match git_top {
            Some(t) => t.as_str().unicode_len() > 0,
            None => false,
        };
        let use_git = match self.mode {
            Mode::Git => git_allowed,
            Mode::Recursive => false,
            Mode::Auto => git_allowed,
        };
        if use_git {
            let prepared_root = self.root.clone();
            let ring = self.git.complete(canonical_query, limit, prepared_root.as_str(), git_top);
            proof {
                let picked = choose|sorted: Seq<MatchModel>|
                    {
                        &&& self.git.contains_root(self.git.spec_root() + seq!['/'])
                        &&& sorted.to_multiset() == match_results(
                            canonical_query@,
                            self.git.entries_for(self.git.spec_root() + seq!['/']),
                        ).to_multiset()
                        &&& sorted_desc_models(sorted)
                        &&& ring@.map_values(|s: String| s@) == sorted.map_values(
                            |m: MatchModel| m.text,
                        ).take(capped(limit as int, sorted.len() as int))
                    };
                assert(sorted_desc_models(picked) && ring@.map_values(|s: String| s@)
                    == picked.map_values(|m: MatchModel| m.text).take(
                    capped(limit as int, picked.len() as int),
                ));
            }
            ring
        } else {
            match self.mode {
                Mode::Git => {
                    let empty: Vec<String> = Vec::new();
                    RingBuffer::from_vec(empty)
                },
                _ => {
                    let ring = self.recursive.complete(canonical_query, limit, home, git_allowed);
                    proof {
                        let (root, picked) = choose|root: Seq<char>, sorted: Seq<MatchModel>|
                            {
                                &&& self.recursive.contains_root(root)
                                &&& (old(self).recursive.contains_root(root) ==> forall|
                                    k: Seq<char>,
                                |
                                    self.recursive.contains_root(k) == old(self).recursive.contains_root(k) && self.recursive.entries_for(k)
                                        == old(self).recursive.entries_for(k))
                                &&& (forall|k: Seq<char>|
                                    k != root ==> self.recursive.contains_root(k) == old(self).recursive.contains_root(k) && self.recursive.entries_for(k)
                                        == old(self).recursive.entries_for(k))
                                &&& sorted.to_multiset() == match_results(
                                    canonical_query@,
                                    self.recursive.entries_for(root),
                                ).to_multiset()
                                &&& sorted_desc_models(sorted)
                                &&& ring@.map_values(|s: String| s@) == sorted.map_values(
                                    |m: MatchModel| m.text,
                                ).take(capped(limit as int, sorted.len() as int))
                            };
                        assert(self.recursive.contains_root(root) && sorted_desc_models(picked));
                    }
                    ring
                },
            }
        }
    }
}

impl Default for MixedCompleter {
    /// A fresh dispatcher: automatic mode, the current directory as root,
    /// fresh strategies.
    fn default() -> (r: MixedCompleter)
        ensures
            r.wf(),
            r.spec_mode() is Auto,
            r.spec_root() == "."@,
    {
        MixedCompleter {
            git: GitCompleter::default(),
            recursive: RecursiveCompleter::default(),
            mode: Mode::Auto,
            root: ".".to_owned(),
        }
    }
}

} // verus!
