//! Completion over a repository tree: enumerates files under the
//! repository root honoring ignore rules, with a fixed-size worker pool
//! walking subtrees in parallel into a single concurrent queue, and
//! produces paths relative to the resolved root. The repository root
//! itself is resolved by the caller (a version-control query the library
//! cannot make, run under the search root) and handed in; when it cannot
//! be resolved the search root itself stands in for it.

use vstd::prelude::*;

verus! {

use crate::completer::{CompleterBase, match_results, sorted_desc_models, capped};
use crate::filter::spaced::MatchModel;
use crate::ring_buffer::RingBuffer;
use crate::util::{push_char, spec_strip_root, strip_root};

/// Relies on `ignore::WalkBuilder`: walks the tree under `root` up to
/// `max_depth` honoring ignore rules, eight workers feeding one queue, and
/// relies on crossbeam's `SegQueue` as that queue. The discovered paths
/// depend on the filesystem and arrive in no fixed order, so nothing
/// further is promised.
#[verifier::external_body]
fn walk_dir_ignore(root: &str, max_depth: usize) -> (r: Vec<String>) {
    let queue = std::sync::Arc::new(crossbeam::queue::SegQueue::new());
    let sink = queue.clone();
    let walker = ignore::WalkBuilder::new(root).threads(8).max_depth(Some(max_depth)).build_parallel();
    walker.run(|| {
        let q = queue.clone();
        Box::new(move |e| { if let Ok(entry) = e { q.push(entry.path().to_string_lossy().to_string()); } ignore::WalkState::Continue })
    });
    let mut paths = Vec::new();
    while let Some(path) = sink.pop() { paths.push(path); }
    paths
}

/// Makes each walked path relative to `root`.
fn relativize(raw: Vec<String>, root: &str) -> (r: Vec<String>)
    ensures
        r.deep_view() == raw.deep_view().map_values(|p: Seq<char>| spec_strip_root(root@, p)),
{
    let mut out: Vec<String> = Vec::new();
    let mut i: usize = 0;
    while i < raw.len()
        invariant
            i <= raw@.len(),
            out@.len() == i,
            forall|j: int|
                0 <= j < i ==> (#[trigger] out@[j])@ == spec_strip_root(root@, raw@[j]@),
        decreases raw@.len() - i,
    {
        let s = strip_root(root, raw[i].as_str());
        out.push(s);
        i = i + 1;
    }
    proof {
        assert(out.deep_view() =~= raw.deep_view().map_values(
            |p: Seq<char>| spec_strip_root(root@, p),
        ));
    }
    out
}

pub struct GitCompleter {
    base: CompleterBase,
    pub max_depth: usize,
    pub root: String,
}

impl GitCompleter {
    pub closed spec fn wf(&self) -> bool {
        self.base.wf()
    }

    pub closed spec fn contains_root(&self, r: Seq<char>) -> bool {
        self.base.contains_root(r)
    }

    pub closed spec fn entries_for(&self, r: Seq<char>) -> Seq<Seq<char>> {
        self.base.entries_for(r)
    }

    pub closed spec fn spec_root(&self) -> Seq<char> {
        self.root@
    }

    pub closed spec fn spec_max_depth(&self) -> int {
        self.max_depth as int
    }

    pub fn label(&self) -> (r: String)
        ensures
            r@ == "git"@,
    {
        "git".to_owned()
    }

    /// Adopts the repository root the caller resolved, or the search root
    /// itself when none was resolvable.
    pub fn update_root(&mut self, search_root: &str, git_top: Option<&String>)
        requires
            old(self).wf(),
        ensures
            final(self).wf(),
            forall|k: Seq<char>|
                final(self).contains_root(k) == old(self).contains_root(k) && final(self).entries_for(
                    k,
                ) == old(self).entries_for(k),
            final(self).spec_max_depth() == old(self).spec_max_depth(),
            final(self).spec_root() == match git_top {
                Some(t) => t@,
                None => search_root@,
            },
    {
        self.root = match git_top {
            Some(t) => t.clone(),
            None => search_root.to_owned(),
        };
    }

    /// Completes `query` from the ignore-respecting enumeration under the
    /// adopted repository root (scanned once per root, then cached, with
    /// every path made relative to it): the cached candidates run through
    /// the shared clean-score-sort-bound pipeline. A root already cached
    /// is answered from the cache, which then does not change at all; a
    /// fresh root is scanned once and leaves every other root's entry as
    /// it was.
    pub fn complete(&mut self, query: &str, limit: usize, search_root: &str, git_top: Option<
        &String,
    >) -> (r: RingBuffer<String>)
        requires
            old(self).wf(),
        ensures
            final(self).wf(),
            final(self).spec_root() == match git_top {
                Some(t) => t@,
                None => search_root@,
            },
            old(self).contains_root(final(self).spec_root() + seq!['/']) ==> forall|k: Seq<char>|
                final(self).contains_root(k) == old(self).contains_root(k) && final(self).entries_for(
                    k,
                ) == old(self).entries_for(k),
            forall|k: Seq<char>|
                k != final(self).spec_root() + seq!['/'] ==> final(self).contains_root(k) == old(self).contains_root(k) && final(self).entries_for(k) == old(self).entries_for(k),
            r.wf(),
            r.cursor_index() == 0,
            exists|sorted: Seq<MatchModel>|
                {
                    &&& final(self).contains_root(final(self).spec_root() + seq!['/'])
                    &&& sorted.to_multiset() == match_results(
                        query@,
                        final(self).entries_for(final(self).spec_root() + seq!['/']),
                    ).to_multiset()
                    &&& sorted_desc_models(sorted)
                    &&& r@.map_values(|s: String| s@) == sorted.map_values(
                        |m: MatchModel| m.text,
                    ).take(capped(limit as int, sorted.len() as int))
                },
    {
        self.update_root(search_root, git_top);
        let mut root_slash = self.root.clone();
        push_char(&mut root_slash, '/');
        let depth = self.max_depth;
        let root_for_scan = root_slash.clone();
        let ring = self.base.complete(
            query,
            root_slash.as_str(),
            limit,
            || relativize(walk_dir_ignore(root_for_scan.as_str(), depth), root_for_scan.as_str()),
        );
        proof {
            assert(root_slash@ =~= self.root@ + seq!['/']);
            let picked = choose|sorted: Seq<MatchModel>|
                {
                    &&& sorted.to_multiset() == match_results(
                        query@,
                        self.base.entries_for(root_slash@),
                    ).to_multiset()
                    &&& sorted_desc_models(sorted)
                    &&& ring@.map_values(|s: String| s@) == sorted.map_values(
                        |m: MatchModel| m.text,
                    ).take(capped(limit as int, sorted.len() as int))
                };
            assert({
                &&& self.contains_root(self.root@ + seq!['/'])
                &&& picked.to_multiset() == match_results(
                    query@,
                    self.entries_for(self.root@ + seq!['/']),
                ).to_multiset()
                &&& sorted_desc_models(picked)
                &&& ring@.map_values(|s: String| s@) == picked.map_values(
                    |m: MatchModel| m.text,
                ).take(capped(limit as int, picked.len() as int))
            });
        }
        ring
    }
}

impl Default for GitCompleter {
    /// A fresh completer: the current directory as root, depth 32, an
    /// empty cache.
    fn default() -> (r: GitCompleter)
        ensures
            r.wf(),
            r.spec_root() == "."@,
            r.spec_max_depth() == 32,
            forall|k: Seq<char>| !r.contains_root(k),
    {
        GitCompleter { base: CompleterBase::new(), root: ".".to_owned(), max_depth: 32 }
    }
}

} // verus!
