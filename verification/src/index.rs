use vstd::prelude::*;

use crate::bk_tree::{build_matcher_model, bucket_of, mark_model, search_model, BKTree};
use crate::inv_index::{build_model, lower_of, InvertedIndex};

verus! {

// The whole lookup index: the fuzzy, recency-aware matcher over basenames
// together with the exact-token inverted index, built once from the same
// list of directory paths.

/// The combined index that the surrounding front-end drives.
pub struct Index {
    matcher: BKTree,
    tokens: InvertedIndex,
}

impl Index {
    /// The state of the fuzzy matcher: one entry per distinct basename.
    pub closed spec fn matcher_view(&self) -> Seq<(Seq<char>, Seq<Seq<char>>)> {
        self.matcher@
    }

    /// The state of the inverted index: one entry per distinct token.
    pub closed spec fn token_view(&self) -> Seq<(Seq<char>, Seq<Seq<char>>)> {
        self.tokens@
    }

    /// Both parts are well formed.
    pub closed spec fn wf(&self) -> bool {
        &&& self.matcher.wf()
        &&& self.tokens.wf()
    }

    /// Builds the index from an already-collected list of directory paths:
    /// every path is inserted into the matcher under its basename and into
    /// the inverted index under each of its lowercased segments.
    pub fn build_index(paths: &Vec<String>) -> (r: Index)
        ensures
            r.wf(),
            r.matcher_view() == build_matcher_model(paths.deep_view()),
            r.token_view() == build_model(paths.deep_view()),
    {
        let tokens = InvertedIndex::build(paths.as_slice());
        let mut matcher = BKTree::new();
        proof {
            assert(paths.deep_view().take(0) =~= Seq::<Seq<char>>::empty());
        }
        let n = paths.len();
        let mut i: usize = 0;
        while i < n
            invariant
                matcher.wf(),
                n == paths@.len(),
                i <= n,
                matcher@ == build_matcher_model(paths.deep_view().take(i as int)),
            decreases n - i,
        {
            let ghost dirs = paths.deep_view();
            proof {
                assert(dirs.take(i + 1).drop_last() =~= dirs.take(i as int));
                assert(dirs.take(i + 1).last() == dirs[i as int]);
                assert(paths@[i as int]@ == dirs[i as int]);
            }
            matcher.insert(paths[i].as_str());
            i += 1;
        }
        proof {
            assert(paths.deep_view().take(n as int) =~= paths.deep_view());
        }
        Index { matcher, tokens }
    }

    /// Returns every indexed path whose basename lies within `max_distance`
    /// of the query, grouped by basename in first-seen order and ranked by
    /// recency within each group.
    pub fn fuzzy_search(&self, query: &str, max_distance: usize) -> (r: Vec<String>)
        requires
            self.wf(),
        ensures
            r.deep_view() == search_model(self.matcher_view(), query@, max_distance as nat),
    {
        self.matcher.search(query, max_distance)
    }

    /// Returns the paths recorded under the query as an exact,
    /// case-insensitive token, or nothing when the token was never seen.
    pub fn token_search(&self, token: &str) -> (r: Vec<String>)
        requires
            self.wf(),
        ensures
            r.deep_view() == bucket_of(self.token_view(), lower_of(token@)),
    {
        match self.tokens.search(token) {
            Some(v) => v,
            None => {
                let r: Vec<String> = Vec::new();
                proof {
                    assert(r.deep_view() =~= Seq::<Seq<char>>::empty());
                }
                r
            },
        }
    }

    /// Records that a path was selected, moving it to the most recent
    /// position of its basename group; an unknown path changes nothing.
    pub fn mark_accessed(&mut self, path: &str)
        requires
            old(self).wf(),
        ensures
            final(self).wf(),
            final(self).matcher_view() == mark_model(old(self).matcher_view(), path@),
            final(self).token_view() == old(self).token_view(),
    {
        self.matcher.access(path);
    }
}

} // verus!
