//! Completion by plain recursive enumeration under the resolved root, up to
//! a bounded depth (deeper when the root lies inside a repository), without
//! honoring ignore rules. Directory entries are marked with a trailing
//! separator.

use vstd::prelude::*;

verus! {

use crate::completer::{CompleterBase, match_results, sorted_desc_models, capped};
use crate::filter::spaced::MatchModel;
use crate::ring_buffer::RingBuffer;
use crate::util::{search_root, push_char};

/// Relies on `walkdir::WalkDir`: enumerates the tree under `root` up to
/// `max_depth`, optionally following links, and reports each entry's path
/// with whether it is a directory; unreadable entries are skipped. What
/// comes back depends on the filesystem, so nothing further is promised.
#[verifier::external_body]
fn walk_dir_plain(root: &str, max_depth: usize, follow_links: bool) -> (r: Vec<(String, bool)>) {
    let mut out = Vec::new();
    let walk = walkdir::WalkDir::new(root).follow_links(follow_links).max_depth(max_depth);
    for entry in walk {
        if let Ok(e) = entry {
            let is_dir = e.file_type().is_dir();
            out.push((e.path().to_string_lossy().to_string(), is_dir));
        }
    }
    out
}

/// A directory entry's candidate string carries a trailing separator.
pub open spec fn spec_format_path(p: Seq<char>, is_dir: bool) -> Seq<char> {
    if is_dir {
        p.push('/')
    } else {
        p
    }
}

/// Marks each directory entry with a trailing separator.
fn format_walk(raw: Vec<(String, bool)>) -> (r: Vec<String>)
    ensures
        r.deep_view() == raw@.map_values(|e: (String, bool)| spec_format_path(e.0@, e.1)),
{
    let mut out: Vec<String> = Vec::new();
    let mut i: usize = 0;
    while i < raw.len()
        invariant
            i <= raw@.len(),
            out@.len() == i,
            forall|j: int|
                0 <= j < i ==> (#[trigger] out@[j])@ == spec_format_path(raw@[j].0@, raw@[j].1),
        decreases raw@.len() - i,
    {
        let mut s = raw[i].0.clone();
        if raw[i].1 {
            push_char(&mut s, '/');
        }
        out.push(s);
        i = i + 1;
    }
    proof {
        assert(out.deep_view() =~= raw@.map_values(
            |e: (String, bool)| spec_format_path(e.0@, e.1),
        ));
    }
    out
}

pub struct RecursiveCompleter {
    max_depth: usize,
    max_git_depth: usize,
    follow_links: bool,
    base: CompleterBase,
}

impl RecursiveCompleter {
    pub closed spec fn wf(&self) -> bool {
        self.base.wf()
    }

    pub closed spec fn contains_root(&self, r: Seq<char>) -> bool {
        self.base.contains_root(r)
    }

    pub closed spec fn entries_for(&self, r: Seq<char>) -> Seq<Seq<char>> {
        self.base.entries_for(r)
    }

    pub closed spec fn depths(&self) -> (int, int) {
        (self.max_depth as int, self.max_git_depth as int)
    }

    pub fn label(&self) -> (r: String)
        ensures
            r@ == "recursive"@,
    {
        "recursive".to_owned()
    }

    /// The depth bound for a scan: deeper when the root lies inside a
    /// repository.
    pub fn depth_for(&self, in_git: bool) -> (r: usize)
        ensures
            r as int == if in_git {
                self.depths().1
            } else {
                self.depths().0
            },
    {
        if in_git {
            self.max_git_depth
        } else {
            self.max_depth
        }
    }

    /// Completes `query` from a depth-bounded plain enumeration under the
    /// resolved search root (scanned once per root, then cached): the
    /// cached candidates run through the shared clean-score-sort-bound
    /// pipeline. A root already cached is answered from the cache, which
    /// then does not change at all; a fresh root is scanned once and
    /// leaves every other root's entry as it was.
    pub fn complete(&mut self, query: &str, limit: usize, home: Option<&String>, in_git: bool)
        -> (r: RingBuffer<String>)
        requires
            old(self).wf(),
        ensures
            final(self).wf(),
            final(self).depths() == old(self).depths(),
            r.wf(),
            r.cursor_index() == 0,
            exists|root: Seq<char>, sorted: Seq<MatchModel>|
                {
                    &&& final(self).contains_root(root)
                    &&& (old(self).contains_root(root) ==> forall|k: Seq<char>|
                        final(self).contains_root(k) == old(self).contains_root(k) && final(self).entries_for(k) == old(self).entries_for(k))
                    &&& (forall|k: Seq<char>|
                        k != root ==> final(self).contains_root(k) == old(self).contains_root(k)
                            && final(self).entries_for(k) == old(self).entries_for(k))
                    &&& sorted.to_multiset() == match_results(
                        query@,
                        final(self).entries_for(root),
                    ).to_multiset()
                    &&& sorted_desc_models(sorted)
                    &&& r@.map_values(|s: String| s@) == sorted.map_values(
                        |m: MatchModel| m.text,
                    ).take(capped(limit as int, sorted.len() as int))
                },
    {
        let root = search_root(query, home);
        let depth = self.depth_for(in_git);
        let links = self.follow_links;
        let root_for_scan = root.clone();
        let ring = self.base.complete(
            query,
            root.as_str(),
            limit,
            || format_walk(walk_dir_plain(root_for_scan.as_str(), depth, links)),
        );
        proof {
            let picked = choose|sorted: Seq<MatchModel>|
                {
                    &&& sorted.to_multiset() == match_results(
                        query@,
                        self.base.entries_for(root@),
                    ).to_multiset()
                    &&& sorted_desc_models(sorted)
                    &&& ring@.map_values(|s: String| s@) == sorted.map_values(
                        |m: MatchModel| m.text,
                    ).take(capped(limit as int, sorted.len() as int))
                };
            assert({
                &&& self.contains_root(root@)
                &&& (old(self).contains_root(root@) ==> forall|k: Seq<char>|
                    self.contains_root(k) == old(self).contains_root(k) && self.entries_for(k)
                        == old(self).entries_for(k))
                &&& (forall|k: Seq<char>|
                    k != root@ ==> self.contains_root(k) == old(self).contains_root(k)
                        && self.entries_for(k) == old(self).entries_for(k))
                &&& picked.to_multiset() == match_results(
                    query@,
                    self.entries_for(root@),
                ).to_multiset()
                &&& sorted_desc_models(picked)
                &&& ring@.map_values(|s: String| s@) == picked.map_values(
                    |m: MatchModel| m.text,
                ).take(capped(limit as int, picked.len() as int))
            });
        }
        ring
    }
}

impl Default for RecursiveCompleter {
    /// A fresh completer: depth 2 outside a repository, 32 inside, links
    /// not followed, an empty cache.
    fn default() -> (r: RecursiveCompleter)
        ensures
            r.wf(),
            r.depths() == (2int, 32int),
            forall|k: Seq<char>| !r.contains_root(k),
    {
        RecursiveCompleter {
            max_depth: 2,
            max_git_depth: 32,
            follow_links: false,
            base: CompleterBase::new(),
        }
    }
}

} // verus!
