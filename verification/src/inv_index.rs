use vstd::prelude::*;

use crate::bk_tree::{bucket_of, has_key, index_of_key, keys_distinct, lemma_index_of_key};

verus! {

// An inverted index over directory paths: each lowercased path segment
// (token) maps to the list of full paths containing that segment, in the
// order the paths were seen.  The abstract state is a sequence of entries in
// first-seen token order, each pairing a token with its path list.

/// What `str::to_lowercase` returns for a string with these characters.
pub uninterp spec fn lower_of(s: Seq<char>) -> Seq<char>;

/// Relies on str::to_lowercase: the result depends on the characters alone,
/// and an empty string stays empty.
#[verifier::external_body]
fn lowercase(s: &str) -> (r: String)
    ensures
        r@ == lower_of(s@),
        s@.len() == 0 ==> r@.len() == 0,
{
    s.to_lowercase()
}

/// The segments of a path, split at every separator.  A path without a
/// separator is one segment; separators at the ends contribute empty
/// segments, as splitting does.
pub open spec fn segments_of(s: Seq<char>) -> Seq<Seq<char>>
    decreases s.len(),
{
    if s.len() == 0 {
        seq![Seq::<char>::empty()]
    } else if s.last() == '/' {
        segments_of(s.drop_last()).push(Seq::<char>::empty())
    } else {
        let rest = segments_of(s.drop_last());
        rest.update(rest.len() - 1, rest.last().push(s.last()))
    }
}

/// The tokens of one path: its segments, lowercased.
pub open spec fn tokens_of(dir: Seq<char>) -> Seq<Seq<char>> {
    segments_of(dir).map_values(|t: Seq<char>| lower_of(t))
}

/// The index after one token of `dir` is recorded: `dir` joins the token's
/// list, and a first-seen token opens a list at the end.
pub open spec fn record_token(
    m: Seq<(Seq<char>, Seq<Seq<char>>)>,
    t: Seq<char>,
    dir: Seq<char>,
) -> Seq<(Seq<char>, Seq<Seq<char>>)> {
    if has_key(m, t) {
        let i = index_of_key(m, t);
        m.update(i, (t, m[i].1.push(dir)))
    } else {
        m.push((t, seq![dir]))
    }
}

/// The index after the tokens `toks` of `dir` are recorded in order.
pub open spec fn record_tokens(
    m: Seq<(Seq<char>, Seq<Seq<char>>)>,
    toks: Seq<Seq<char>>,
    dir: Seq<char>,
) -> Seq<(Seq<char>, Seq<Seq<char>>)>
    decreases toks.len(),
{
    if toks.len() == 0 {
        m
    } else {
        record_token(record_tokens(m, toks.drop_last(), dir), toks.last(), dir)
    }
}

/// The index after one whole path is recorded.
pub open spec fn record_dir(
    m: Seq<(Seq<char>, Seq<Seq<char>>)>,
    dir: Seq<char>,
) -> Seq<(Seq<char>, Seq<Seq<char>>)> {
    record_tokens(m, tokens_of(dir), dir)
}

/// The index built from a list of paths, in input order.
pub open spec fn build_model(dirs: Seq<Seq<char>>) -> Seq<(Seq<char>, Seq<Seq<char>>)>
    decreases dirs.len(),
{
    if dirs.len() == 0 {
        Seq::empty()
    } else {
        record_dir(build_model(dirs.drop_last()), dirs.last())
    }
}

/// Token lookup is case-insensitive: two queries that lowercase to the same
/// token are answered with the same entry, or both with none.
pub proof fn lemma_search_case_insensitive(
    m: Seq<(Seq<char>, Seq<Seq<char>>)>,
    q1: Seq<char>,
    q2: Seq<char>,
)
    requires
        lower_of(q1) == lower_of(q2),
    ensures
        has_key(m, lower_of(q1)) == has_key(m, lower_of(q2)),
        bucket_of(m, lower_of(q1)) == bucket_of(m, lower_of(q2)),
{
}

/// Appends one path string, on the level of character sequences.
fn push_string(r: &mut Vec<String>, s: String)
    ensures
        final(r).deep_view() == old(r).deep_view().push(s@),
{
    let ghost v = s@;
    r.push(s);
    proof {
        assert forall|k: int| 0 <= k < r.deep_view().len() implies r.deep_view()[k] == old(
            r,
        ).deep_view().push(v)[k] by {
            assert(r.deep_view()[k] == r@[k].deep_view());
            if k < old(r)@.len() {
                assert(r@[k] == old(r)@[k]);
                assert(old(r).deep_view()[k] == old(r)@[k].deep_view());
            }
        }
        assert(r.deep_view() =~= old(r).deep_view().push(v));
    }
}

/// Splits a path into its segments.
fn split_segments(path: &str) -> (r: Vec<String>)
    ensures
        r.deep_view() == segments_of(path@),
{
    let n = path.unicode_len();
    let mut r: Vec<String> = Vec::new();
    let mut start: usize = 0;
    let mut i: usize = 0;
    proof {
        assert(path@.subrange(0, 0) =~= Seq::<char>::empty());
        assert(r.deep_view().push(path@.subrange(0, 0)) =~= segments_of(path@.subrange(0, 0)));
    }
    while i < n
        invariant
            start <= i <= n,
            n == path@.len(),
            r.deep_view().push(path@.subrange(start as int, i as int)) == segments_of(
                path@.subrange(0, i as int),
            ),
        decreases n - i,
    {
        let ghost pre = path@.subrange(0, i as int);
        let ghost cur = path@.subrange(start as int, i as int);
        let c = path.get_char(i);
        if c == '/' {
            let seg = path.substring_char(start, i).to_owned();
            push_string(&mut r, seg);
            start = i + 1;
            proof {
                let post = path@.subrange(0, i + 1);
                assert(post.last() == path@[i as int]);
                assert(post.drop_last() =~= pre);
                assert(segments_of(post) == segments_of(pre).push(Seq::<char>::empty()));
                assert(r.deep_view() == segments_of(pre));
                assert(path@.subrange(i + 1, i + 1) =~= Seq::<char>::empty());
                assert(r.deep_view().push(path@.subrange(i + 1, i + 1)) =~= segments_of(post));
            }
        } else {
            proof {
                let post = path@.subrange(0, i + 1);
                assert(post.last() == path@[i as int]);
                assert(post.drop_last() =~= pre);
                let rest = segments_of(pre);
                assert(rest == r.deep_view().push(cur));
                assert(rest.len() == r.deep_view().len() + 1);
                assert(rest.last() == cur);
                assert(segments_of(post) == rest.update(rest.len() - 1, cur.push(path@[i as int])));
                assert(cur.push(path@[i as int]) =~= path@.subrange(start as int, i + 1));
                assert(r.deep_view().push(path@.subrange(start as int, i + 1)) =~= segments_of(
                    post,
                ));
            }
        }
        i += 1;
    }
    let seg = path.substring_char(start, n).to_owned();
    push_string(&mut r, seg);
    proof {
        assert(path@.subrange(0, n as int) =~= path@);
    }
    r
}

/// Maps each lowercased path segment to the full paths containing it, in
/// first-seen order; a path occurs once in a list for each time the token
/// occurs in it.
pub struct InvertedIndex {
    tokens: Vec<String>,
    lists: Vec<Vec<String>>,
}

impl View for InvertedIndex {
    type V = Seq<(Seq<char>, Seq<Seq<char>>)>;

    closed spec fn view(&self) -> Seq<(Seq<char>, Seq<Seq<char>>)> {
        Seq::new(self.tokens@.len(), |i: int| (self.tokens@[i]@, self.lists@[i].deep_view()))
    }
}

impl InvertedIndex {
    /// The two columns line up entry for entry.
    pub closed spec fn inv(&self) -> bool {
        self.tokens@.len() == self.lists@.len()
    }

    /// Tokens are unique.
    pub open spec fn wf(&self) -> bool {
        &&& self.inv()
        &&& keys_distinct(self@)
    }

    /// Position of the entry for `token`, if one exists.
    fn find_token(&self, token: &String) -> (r: Option<usize>)
        requires
            self.wf(),
        ensures
            match r {
                Some(i) => i < self@.len() && self@[i as int].0 == token@,
                None => !has_key(self@, token@),
            },
    {
        let n = self.tokens.len();
        let mut i: usize = 0;
        while i < n
            invariant
                self.wf(),
                n == self@.len(),
                i <= n,
                forall|j: int| 0 <= j < i ==> self@[j].0 != token@,
            decreases n - i,
        {
            if self.tokens[i] == *token {
                return Some(i);
            }
            i += 1;
        }
        proof {
            assert forall|k: int| 0 <= k < self@.len() implies self@[k].0 != token@ by {}
        }
        None
    }

    /// Records one already-lowercased token of `dir`.
    fn record(&mut self, token: String, dir: &String)
        requires
            old(self).wf(),
        ensures
            final(self).wf(),
            final(self)@ == record_token(old(self)@, token@, dir@),
    {
        match self.find_token(&token) {
            Some(i) => {
                proof {
                    lemma_index_of_key(old(self)@, i as int);
                }
                let ghost pre_list = self.lists@[i as int];
                push_string(&mut self.lists[i], dir.clone());
                proof {
                    assert(self@ =~= old(self)@.update(
                        i as int,
                        (token@, old(self)@[i as int].1.push(dir@)),
                    ));
                    assert(keys_distinct(self@));
                }
            },
            None => {
                let mut list: Vec<String> = Vec::new();
                push_string(&mut list, dir.clone());
                self.tokens.push(token);
                self.lists.push(list);
                proof {
                    assert(list.deep_view() =~= seq![dir@]);
                    assert(self@ =~= old(self)@.push((
                        self.tokens@[self.tokens@.len() - 1]@,
                        seq![dir@],
                    )));
                    let m = self@;
                    assert forall|x: int, y: int|
                        0 <= x < m.len() && 0 <= y < m.len() && x != y implies m[x].0
                        != m[y].0 by {
                        if x < m.len() - 1 && y < m.len() - 1 {
                            assert(old(self)@[x].0 != old(self)@[y].0);
                        } else if x < m.len() - 1 {
                            assert(has_key(old(self)@, m[x].0) || m[x].0 != m[y].0);
                        } else {
                            assert(has_key(old(self)@, m[y].0) || m[x].0 != m[y].0);
                        }
                    }
                }
            },
        }
    }

    /// Builds the index from a list of directory paths: every path is split
    /// into segments, each segment lowercased, and the path recorded under
    /// each resulting token, in input order.
    pub fn build(directories: &[String]) -> (r: Self)
        ensures
            r.wf(),
            r@ == build_model(directories.deep_view()),
    {
        let mut r = InvertedIndex { tokens: Vec::new(), lists: Vec::new() };
        proof {
            assert(r@ =~= Seq::<(Seq<char>, Seq<Seq<char>>)>::empty());
            assert(directories.deep_view().take(0) =~= Seq::<Seq<char>>::empty());
        }
        let n = directories.len();
        let mut i: usize = 0;
        while i < n
            invariant
                r.wf(),
                n == directories@.len(),
                i <= n,
                r@ == build_model(directories.deep_view().take(i as int)),
            decreases n - i,
        {
            let ghost dirs = directories.deep_view();
            let dir = &directories[i];
            proof {
                assert(dir@ == dirs[i as int]);
            }
            let segs = split_segments(dir.as_str());
            let ghost toks = tokens_of(dir@);
            let m = segs.len();
            let mut j: usize = 0;
            proof {
                assert(toks.take(0) =~= Seq::<Seq<char>>::empty());
            }
            while j < m
                invariant
                    r.wf(),
                    m == segs@.len(),
                    j <= m,
                    segs.deep_view() == segments_of(dir@),
                    toks == tokens_of(dir@),
                    r@ == record_tokens(
                        build_model(dirs.take(i as int)),
                        toks.take(j as int),
                        dir@,
                    ),
                    dirs == directories.deep_view(),
                    i < n,
                    n == directories@.len(),
                    dir@ == dirs[i as int],
                decreases m - j,
            {
                let token = lowercase(segs[j].as_str());
                proof {
                    assert(segs@[j as int]@ == segments_of(dir@)[j as int]);
                    assert(token@ == toks[j as int]);
                    assert(toks.take(j + 1).drop_last() =~= toks.take(j as int));
                    assert(toks.take(j + 1).last() == toks[j as int]);
                }
                r.record(token, dir);
                j += 1;
            }
            proof {
                assert(toks.take(m as int) =~= toks);
                assert(dirs.take(i + 1).drop_last() =~= dirs.take(i as int));
                assert(dirs.take(i + 1).last() == dirs[i as int]);
            }
            i += 1;
        }
        proof {
            assert(directories.deep_view().take(n as int) =~= directories.deep_view());
        }
        r
    }

    /// Copies one path list.
    fn copy_list(v: &Vec<String>) -> (r: Vec<String>)
        ensures
            r.deep_view() == v.deep_view(),
    {
        let n = v.len();
        let mut r: Vec<String> = Vec::new();
        let mut i: usize = 0;
        while i < n
            invariant
                n == v@.len(),
                i <= n,
                r.deep_view() == v.deep_view().take(i as int),
            decreases n - i,
        {
            push_string(&mut r, v[i].clone());
            proof {
                assert(v.deep_view()[i as int] == v@[i as int]@);
                assert(r.deep_view() =~= v.deep_view().take(i + 1));
            }
            i += 1;
        }
        proof {
            assert(v.deep_view().take(n as int) =~= v.deep_view());
        }
        r
    }

    /// Looks the query up as an exact token, case-insensitively: the list of
    /// paths recorded under the lowercased query, or nothing when that token
    /// was never seen.
    pub fn search(&self, query: &str) -> (r: Option<Vec<String>>)
        requires
            self.wf(),
        ensures
            match r {
                Some(v) => has_key(self@, lower_of(query@)) && v.deep_view() == bucket_of(
                    self@,
                    lower_of(query@),
                ),
                None => !has_key(self@, lower_of(query@)),
            },
    {
        let q = lowercase(query);
        match self.find_token(&q) {
            Some(i) => {
                proof {
                    lemma_index_of_key(self@, i as int);
                }
                Some(Self::copy_list(&self.lists[i]))
            },
            None => None,
        }
    }
}

} // verus!
