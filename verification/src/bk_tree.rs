use vstd::prelude::*;

use crate::paths::{access_model, add_model, lemma_add_model_props, lemma_promote_props, Paths};

verus! {

// A fuzzy matcher over directory paths, grouped by basename.  The abstract
// state is a sequence of entries, one per distinct basename in first-seen
// order; an entry pairs the basename with the recency order of the full
// paths stored under it.

/// The smaller of three costs.
pub open spec fn min3(a: nat, b: nat, c: nat) -> nat {
    if a <= b && a <= c {
        a
    } else if b <= c {
        b
    } else {
        c
    }
}

/// The Levenshtein edit distance: the least number of single-character
/// insertions, deletions and substitutions that turn `a` into `b`.
pub open spec fn edit_distance(a: Seq<char>, b: Seq<char>) -> nat
    decreases a.len(), b.len(),
{
    if a.len() == 0 {
        b.len()
    } else if b.len() == 0 {
        a.len()
    } else {
        let tail_cost: nat = if a.last() == b.last() {
            0
        } else {
            1
        };
        min3(
            edit_distance(a.drop_last(), b) + 1,
            edit_distance(a, b.drop_last()) + 1,
            edit_distance(a.drop_last(), b.drop_last()) + tail_cost,
        )
    }
}

/// A string is at distance zero from itself.
pub proof fn lemma_edit_distance_self(s: Seq<char>)
    ensures
        edit_distance(s, s) == 0,
    decreases s.len(),
{
    if s.len() > 0 {
        lemma_edit_distance_self(s.drop_last());
    }
}

/// Relies on strsim::levenshtein: the plain Levenshtein distance between the
/// two strings' character sequences.
#[verifier::external_body]
fn levenshtein(a: &str, b: &str) -> (r: usize)
    ensures
        r as nat == edit_distance(a@, b@),
{
    strsim::levenshtein(a, b)
}

/// The final segment of a path: the text after the last separator, or the
/// whole string when it has no separator.
pub open spec fn basename_of(s: Seq<char>) -> Seq<char>
    decreases s.len(),
{
    if s.len() == 0 {
        s
    } else if s.last() == '/' {
        Seq::empty()
    } else {
        basename_of(s.drop_last()).push(s.last())
    }
}

/// Extracts the basename of a path.
pub fn basename(path: &str) -> (r: String)
    ensures
        r@ == basename_of(path@),
{
    let n = path.unicode_len();
    proof {
        assert(path@.subrange(0, n as int) =~= path@);
        assert(path@.subrange(n as int, n as int) =~= Seq::<char>::empty());
        assert(basename_of(path@) =~= basename_of(path@.subrange(0, n as int)) + path@.subrange(
            n as int,
            n as int,
        ));
    }
    let mut k = n;
    while k > 0
        invariant
            k <= n,
            n == path@.len(),
            basename_of(path@) == basename_of(path@.subrange(0, k as int)) + path@.subrange(
                k as int,
                n as int,
            ),
        decreases k,
    {
        let c = path.get_char(k - 1);
        if c == '/' {
            proof {
                let t = path@.subrange(0, k as int);
                assert(t.last() == path@[k - 1]);
                assert(basename_of(t) == Seq::<char>::empty());
                assert(basename_of(path@) =~= path@.subrange(k as int, n as int));
            }
            let tail = path.substring_char(k, n);
            return tail.to_owned();
        }
        proof {
            let t = path@.subrange(0, k as int);
            let u = path@.subrange(0, k - 1);
            assert(t.last() == path@[k - 1]);
            assert(t.drop_last() =~= u);
            assert(basename_of(t) == basename_of(u).push(path@[k - 1]));
            assert(basename_of(u) + path@.subrange(k - 1, n as int) =~= basename_of(t)
                + path@.subrange(k as int, n as int));
        }
        k -= 1;
    }
    proof {
        assert(path@.subrange(0, 0) =~= Seq::<char>::empty());
        assert(path@.subrange(0, n as int) =~= path@);
        assert(basename_of(path@) =~= path@);
    }
    path.to_owned()
}

/// No two entries share a key.
pub open spec fn keys_distinct(m: Seq<(Seq<char>, Seq<Seq<char>>)>) -> bool {
    forall|i: int, j: int|
        0 <= i < m.len() && 0 <= j < m.len() && i != j ==> m[i].0 != m[j].0
}

/// Every entry's recency order is free of duplicates.
pub open spec fn stores_wf(m: Seq<(Seq<char>, Seq<Seq<char>>)>) -> bool {
    forall|i: int| 0 <= i < m.len() ==> (#[trigger] m[i].1).no_duplicates()
}

/// Whether some entry is keyed by `k`.
pub open spec fn has_key(m: Seq<(Seq<char>, Seq<Seq<char>>)>, k: Seq<char>) -> bool {
    exists|i: int| 0 <= i < m.len() && m[i].0 == k
}

/// The position of the entry keyed by `k`, when there is one.
pub open spec fn index_of_key(m: Seq<(Seq<char>, Seq<Seq<char>>)>, k: Seq<char>) -> int {
    choose|i: int| 0 <= i < m.len() && m[i].0 == k
}

/// The contents stored under the key `k`, or the empty sequence when no
/// entry has that key.
pub open spec fn bucket_of(m: Seq<(Seq<char>, Seq<Seq<char>>)>, k: Seq<char>) -> Seq<Seq<char>> {
    if has_key(m, k) {
        m[index_of_key(m, k)].1
    } else {
        Seq::empty()
    }
}

/// With distinct keys, the entry at `i` is the one its own key looks up.
pub proof fn lemma_index_of_key(m: Seq<(Seq<char>, Seq<Seq<char>>)>, i: int)
    requires
        keys_distinct(m),
        0 <= i < m.len(),
    ensures
        has_key(m, m[i].0),
        index_of_key(m, m[i].0) == i,
        bucket_of(m, m[i].0) == m[i].1,
{
    assert(has_key(m, m[i].0));
    let j = index_of_key(m, m[i].0);
    assert(0 <= j < m.len() && m[j].0 == m[i].0);
    if j != i {
        assert(false);
    }
}

/// The matcher after `insert(p)`: `p` joins the recency order of its
/// basename's entry; a first-seen basename gets a fresh entry at the end.
pub open spec fn insert_model(m: Seq<(Seq<char>, Seq<Seq<char>>)>, p: Seq<char>) -> Seq<
    (Seq<char>, Seq<Seq<char>>),
> {
    let b = basename_of(p);
    if has_key(m, b) {
        let i = index_of_key(m, b);
        m.update(i, (b, add_model(m[i].1, p)))
    } else {
        m.push((b, seq![p]))
    }
}

/// The matcher after `access(p)`: the recency order of `p`'s basename entry
/// records the access; an untracked basename leaves the matcher unchanged.
pub open spec fn mark_model(m: Seq<(Seq<char>, Seq<Seq<char>>)>, p: Seq<char>) -> Seq<
    (Seq<char>, Seq<Seq<char>>),
> {
    let b = basename_of(p);
    if has_key(m, b) {
        let i = index_of_key(m, b);
        m.update(i, (b, access_model(m[i].1, p)))
    } else {
        m
    }
}

/// What a search returns: the concatenation, in entry order, of the recency
/// orders of every entry whose basename lies within `d` of the query.
pub open spec fn search_model(
    m: Seq<(Seq<char>, Seq<Seq<char>>)>,
    q: Seq<char>,
    d: nat,
) -> Seq<Seq<char>>
    decreases m.len(),
{
    if m.len() == 0 {
        Seq::empty()
    } else {
        search_model(m.drop_last(), q, d) + (if edit_distance(m.last().0, q) <= d {
            m.last().1
        } else {
            Seq::empty()
        })
    }
}

/// Membership in a concatenation is membership in either part.
proof fn lemma_concat_contains(a: Seq<Seq<char>>, b: Seq<Seq<char>>, p: Seq<char>)
    ensures
        (a + b).contains(p) <==> a.contains(p) || b.contains(p),
{
    if a.contains(p) {
        let k = choose|k: int| 0 <= k < a.len() && a[k] == p;
        assert((a + b)[k] == p);
    }
    if b.contains(p) {
        let k = choose|k: int| 0 <= k < b.len() && b[k] == p;
        assert((a + b)[a.len() + k] == p);
    }
    if (a + b).contains(p) {
        let k = choose|k: int| 0 <= k < (a + b).len() && (a + b)[k] == p;
        if k < a.len() {
            assert(a[k] == p);
        } else {
            assert(b[k - a.len()] == p);
        }
    }
}

/// Widening the distance bound only ever adds results: everything a search
/// returns at bound `d1` is also returned at any bound `d2 >= d1`.
pub proof fn lemma_search_monotone(
    m: Seq<(Seq<char>, Seq<Seq<char>>)>,
    q: Seq<char>,
    d1: nat,
    d2: nat,
)
    requires
        d1 <= d2,
    ensures
        forall|p: Seq<char>|
            search_model(m, q, d1).contains(p) ==> search_model(m, q, d2).contains(p),
    decreases m.len(),
{
    if m.len() > 0 {
        lemma_search_monotone(m.drop_last(), q, d1, d2);
        let r1 = search_model(m.drop_last(), q, d1);
        let r2 = search_model(m.drop_last(), q, d2);
        let b1: Seq<Seq<char>> = if edit_distance(m.last().0, q) <= d1 {
            m.last().1
        } else {
            Seq::empty()
        };
        let b2: Seq<Seq<char>> = if edit_distance(m.last().0, q) <= d2 {
            m.last().1
        } else {
            Seq::empty()
        };
        assert forall|p: Seq<char>| search_model(m, q, d1).contains(p) implies search_model(
            m,
            q,
            d2,
        ).contains(p) by {
            lemma_concat_contains(r1, b1, p);
            lemma_concat_contains(r2, b2, p);
            if b1.contains(p) {
                assert(b2.contains(p));
            }
        }
    }
}

/// A search whose query is a tracked basename returns that entry's whole
/// recency order, whatever the distance bound.
proof fn lemma_search_includes_entry(
    m: Seq<(Seq<char>, Seq<Seq<char>>)>,
    q: Seq<char>,
    d: nat,
    i: int,
    p: Seq<char>,
)
    requires
        0 <= i < m.len(),
        m[i].0 == q,
        m[i].1.contains(p),
    ensures
        search_model(m, q, d).contains(p),
    decreases m.len(),
{
    lemma_edit_distance_self(q);
    let r = search_model(m.drop_last(), q, d);
    let b: Seq<Seq<char>> = if edit_distance(m.last().0, q) <= d {
        m.last().1
    } else {
        Seq::empty()
    };
    if i == m.len() - 1 {
        lemma_concat_contains(r, b, p);
    } else {
        lemma_search_includes_entry(m.drop_last(), q, d, i, p);
        lemma_concat_contains(r, b, p);
    }
}

/// A tracked path is always found when the query is exactly its basename,
/// even at distance bound zero.
pub proof fn lemma_search_exact_match(m: Seq<(Seq<char>, Seq<Seq<char>>)>, p: Seq<char>, d: nat)
    requires
        has_key(m, basename_of(p)),
        bucket_of(m, basename_of(p)).contains(p),
    ensures
        search_model(m, basename_of(p), d).contains(p),
{
    let b = basename_of(p);
    let i = index_of_key(m, b);
    assert(0 <= i < m.len() && m[i].0 == b);
    lemma_search_includes_entry(m, b, d, i, p);
}

/// Inserting keeps the matcher well formed, and the inserted path is tracked
/// under its basename afterwards.
pub proof fn lemma_insert_model_wf(m: Seq<(Seq<char>, Seq<Seq<char>>)>, p: Seq<char>)
    requires
        keys_distinct(m),
        stores_wf(m),
    ensures
        keys_distinct(insert_model(m, p)),
        stores_wf(insert_model(m, p)),
        has_key(insert_model(m, p), basename_of(p)),
        bucket_of(insert_model(m, p), basename_of(p)).contains(p),
{
    let b = basename_of(p);
    let m2 = insert_model(m, p);
    if has_key(m, b) {
        let i = index_of_key(m, b);
        assert(0 <= i < m.len() && m[i].0 == b);
        lemma_add_model_props(m[i].1, p);
        assert(keys_distinct(m2));
        assert forall|k: int| 0 <= k < m2.len() implies (#[trigger] m2[k].1).no_duplicates() by {
            if k != i {
                assert(m2[k].1 == m[k].1);
            }
        }
        lemma_index_of_key(m2, i);
    } else {
        assert forall|x: int, y: int|
            0 <= x < m2.len() && 0 <= y < m2.len() && x != y implies m2[x].0 != m2[y].0 by {
            if x < m.len() && y < m.len() {
                assert(m[x].0 != m[y].0);
            } else if x < m.len() {
                assert(has_key(m, m2[x].0) || m2[x].0 != m2[y].0);
            } else {
                assert(has_key(m, m2[y].0) || m2[x].0 != m2[y].0);
            }
        }
        assert forall|k: int| 0 <= k < m2.len() implies (#[trigger] m2[k].1).no_duplicates() by {
            if k < m.len() {
                assert(m2[k].1 == m[k].1);
            } else {
                assert(m2[k].1 == seq![p]);
            }
        }
        lemma_index_of_key(m2, m2.len() - 1);
        assert(m2[m2.len() - 1].1[0] == p);
    }
}

/// Inserting one path never untracks another: a path found in its basename's
/// group before an insert is still found there afterwards.
pub proof fn lemma_insert_preserves_tracked(
    m: Seq<(Seq<char>, Seq<Seq<char>>)>,
    p: Seq<char>,
    q: Seq<char>,
)
    requires
        keys_distinct(m),
        stores_wf(m),
        has_key(m, basename_of(q)),
        bucket_of(m, basename_of(q)).contains(q),
    ensures
        has_key(insert_model(m, p), basename_of(q)),
        bucket_of(insert_model(m, p), basename_of(q)).contains(q),
{
    let bq = basename_of(q);
    let bp = basename_of(p);
    let m2 = insert_model(m, p);
    let j = index_of_key(m, bq);
    assert(0 <= j < m.len() && m[j].0 == bq);
    lemma_insert_model_wf(m, p);
    if has_key(m, bp) {
        let i = index_of_key(m, bp);
        assert(0 <= i < m.len() && m[i].0 == bp);
        assert(m2[j].0 == bq);
        lemma_index_of_key(m2, j);
        if j == i {
            lemma_add_model_props(m[i].1, p);
            assert(add_model(m[i].1, p).to_set().contains(q));
        } else {
            assert(m2[j].1 == m[j].1);
        }
    } else {
        assert(m2[j] == m[j]);
        lemma_index_of_key(m2, j);
    }
}

/// The matcher built from a list of paths, inserted in input order.
pub open spec fn build_matcher_model(dirs: Seq<Seq<char>>) -> Seq<(Seq<char>, Seq<Seq<char>>)>
    decreases dirs.len(),
{
    if dirs.len() == 0 {
        Seq::empty()
    } else {
        insert_model(build_matcher_model(dirs.drop_last()), dirs.last())
    }
}

/// A freshly built matcher is well formed.
pub proof fn lemma_build_matcher_wf(dirs: Seq<Seq<char>>)
    ensures
        keys_distinct(build_matcher_model(dirs)),
        stores_wf(build_matcher_model(dirs)),
    decreases dirs.len(),
{
    if dirs.len() > 0 {
        lemma_build_matcher_wf(dirs.drop_last());
        lemma_insert_model_wf(build_matcher_model(dirs.drop_last()), dirs.last());
    }
}

/// Every indexed path is tracked in the built matcher under its basename.
pub proof fn lemma_build_matcher_tracks(dirs: Seq<Seq<char>>, i: int)
    requires
        0 <= i < dirs.len(),
    ensures
        has_key(build_matcher_model(dirs), basename_of(dirs[i])),
        bucket_of(build_matcher_model(dirs), basename_of(dirs[i])).contains(dirs[i]),
    decreases dirs.len(),
{
    let prior = build_matcher_model(dirs.drop_last());
    lemma_build_matcher_wf(dirs.drop_last());
    if i == dirs.len() - 1 {
        lemma_insert_model_wf(prior, dirs.last());
    } else {
        lemma_build_matcher_tracks(dirs.drop_last(), i);
        lemma_insert_preserves_tracked(prior, dirs.last(), dirs[i]);
    }
}

/// Exact-match law: a search whose query is the basename of an indexed path
/// includes that path, at every distance bound.
pub proof fn lemma_exact_match_after_build(dirs: Seq<Seq<char>>, i: int, d: nat)
    requires
        0 <= i < dirs.len(),
    ensures
        search_model(build_matcher_model(dirs), basename_of(dirs[i]), d).contains(dirs[i]),
{
    lemma_build_matcher_tracks(dirs, i);
    lemma_search_exact_match(build_matcher_model(dirs), dirs[i], d);
}

/// Groups paths by basename and answers fuzzy queries over the basenames,
/// with the paths of each group ranked by recency.
pub struct BKTree {
    keys: Vec<String>,
    stores: Vec<Paths>,
}

impl View for BKTree {
    type V = Seq<(Seq<char>, Seq<Seq<char>>)>;

    closed spec fn view(&self) -> Seq<(Seq<char>, Seq<Seq<char>>)> {
        Seq::new(self.keys@.len(), |i: int| (self.keys@[i]@, self.stores@[i]@))
    }
}

impl BKTree {
    /// The two columns line up entry for entry.
    pub closed spec fn inv(&self) -> bool {
        self.keys@.len() == self.stores@.len()
    }

    /// Basenames are unique and every group is free of duplicates.
    pub open spec fn wf(&self) -> bool {
        &&& self.inv()
        &&& keys_distinct(self@)
        &&& stores_wf(self@)
    }

    pub fn new() -> (r: Self)
        ensures
            r@ == Seq::<(Seq<char>, Seq<Seq<char>>)>::empty(),
            r.wf(),
    {
        let r = BKTree { keys: Vec::new(), stores: Vec::new() };
        proof {
            assert(r@ =~= Seq::<(Seq<char>, Seq<Seq<char>>)>::empty());
        }
        r
    }

    /// Position of the entry keyed by `key`, if one exists.
    fn find_key(&self, key: &String) -> (r: Option<usize>)
        requires
            self.wf(),
        ensures
            match r {
                Some(i) => i < self@.len() && self@[i as int].0 == key@,
                None => !has_key(self@, key@),
            },
    {
        let n = self.keys.len();
        let mut i: usize = 0;
        while i < n
            invariant
                self.wf(),
                n == self@.len(),
                i <= n,
                forall|j: int| 0 <= j < i ==> self@[j].0 != key@,
            decreases n - i,
        {
            if self.keys[i] == *key {
                return Some(i);
            }
            i += 1;
        }
        proof {
            assert forall|k: int| 0 <= k < self@.len() implies self@[k].0 != key@ by {}
        }
        None
    }

    /// Inserts a path under its basename: an existing group absorbs it as an
    /// `add`, a new basename opens a group holding just this path.
    pub fn insert(&mut self, path: &str)
        requires
            old(self).wf(),
        ensures
            final(self).wf(),
            final(self)@ == insert_model(old(self)@, path@),
            has_key(final(self)@, basename_of(path@)),
            bucket_of(final(self)@, basename_of(path@)).contains(path@),
    {
        let ghost b = basename_of(path@);
        let dir_name = basename(path);
        match self.find_key(&dir_name) {
            Some(i) => {
                proof {
                    lemma_index_of_key(old(self)@, i as int);
                    lemma_add_model_props(old(self)@[i as int].1, path@);
                }
                self.stores[i].add(path);
                proof {
                    assert(self@ =~= old(self)@.update(
                        i as int,
                        (b, add_model(old(self)@[i as int].1, path@)),
                    ));
                    assert(keys_distinct(self@));
                    assert forall|k: int| 0 <= k < self@.len() implies (
                    #[trigger] self@[k].1).no_duplicates() by {
                        if k != i {
                            assert(self@[k].1 == old(self)@[k].1);
                        }
                    }
                    lemma_index_of_key(self@, i as int);
                }
            },
            None => {
                let mut store = Paths::new();
                store.add(path);
                self.keys.push(dir_name);
                self.stores.push(store);
                proof {
                    assert(store@ =~= seq![path@]);
                    assert(self@ =~= old(self)@.push((b, seq![path@])));
                    let m = self@;
                    assert forall|x: int, y: int|
                        0 <= x < m.len() && 0 <= y < m.len() && x != y implies m[x].0
                        != m[y].0 by {
                        if x < m.len() - 1 && y < m.len() - 1 {
                            assert(old(self)@[x].0 != old(self)@[y].0);
                        } else if x < m.len() - 1 {
                            assert(has_key(old(self)@, m[x].0) || m[x].0 != m[y].0);
                        } else {
                            assert(has_key(old(self)@, m[y].0) || m[x].0 != m[y].0);
                        }
                    }
                    assert forall|k: int| 0 <= k < m.len() implies (
                    #[trigger] m[k].1).no_duplicates() by {
                        if k < m.len() - 1 {
                            assert(m[k].1 == old(self)@[k].1);
                        }
                    }
                    lemma_index_of_key(self@, self@.len() - 1);
                }
            },
        }
    }

    /// Searches for every path whose basename lies within `max_distance` of
    /// the query, most recently accessed first within each group.
    pub fn search(&self, query: &str, max_distance: usize) -> (r: Vec<String>)
        requires
            self.wf(),
        ensures
            r.deep_view() == search_model(self@, query@, max_distance as nat),
    {
        let n = self.keys.len();
        let mut r: Vec<String> = Vec::new();
        let mut i: usize = 0;
        proof {
            assert(self@.take(0) =~= Seq::<(Seq<char>, Seq<Seq<char>>)>::empty());
            assert(r.deep_view() =~= search_model(self@.take(0), query@, max_distance as nat));
        }
        while i < n
            invariant
                self.wf(),
                n == self@.len(),
                i <= n,
                r.deep_view() == search_model(self@.take(i as int), query@, max_distance as nat),
            decreases n - i,
        {
            let ghost prev = r.deep_view();
            proof {
                assert(self@.take(i + 1).drop_last() =~= self@.take(i as int));
                assert(self@.take(i + 1).last() == self@[i as int]);
            }
            if levenshtein(self.keys[i].as_str(), query) <= max_distance {
                let mut items = self.stores[i].get_all();
                let ghost items_view = items.deep_view();
                proof {
                    assert(items_view == self@[i as int].1);
                }
                r.append(&mut items);
                proof {
                    assert forall|k: int| 0 <= k < r.deep_view().len() implies r.deep_view()[k]
                        == (prev + items_view)[k] by {
                        assert(r.deep_view()[k] == r@[k].deep_view());
                    }
                    assert(r.deep_view() =~= prev + items_view);
                    assert(r.deep_view() =~= search_model(
                        self@.take(i + 1),
                        query@,
                        max_distance as nat,
                    ));
                }
            } else {
                proof {
                    assert(search_model(self@.take(i + 1), query@, max_distance as nat) =~= prev);
                }
            }
            i += 1;
        }
        proof {
            assert(self@.take(n as int) =~= self@);
        }
        r
    }

    /// Records that a path was selected: its basename's group moves it to the
    /// most recent position; an untracked basename is ignored.
    pub fn access(&mut self, path: &str)
        requires
            old(self).wf(),
        ensures
            final(self).wf(),
            final(self)@ == mark_model(old(self)@, path@),
    {
        let ghost b = basename_of(path@);
        let dir_name = basename(path);
        match self.find_key(&dir_name) {
            Some(i) => {
                proof {
                    lemma_index_of_key(old(self)@, i as int);
                    if old(self)@[i as int].1.contains(path@) {
                        lemma_promote_props(old(self)@[i as int].1, path@);
                    }
                }
                self.stores[i].access(path);
                proof {
                    assert(self@ =~= old(self)@.update(
                        i as int,
                        (b, access_model(old(self)@[i as int].1, path@)),
                    ));
                    assert(keys_distinct(self@));
                    assert forall|k: int| 0 <= k < self@.len() implies (
                    #[trigger] self@[k].1).no_duplicates() by {
                        if k != i {
                            assert(self@[k].1 == old(self)@[k].1);
                        }
                    }
                }
            },
            None => {},
        }
    }
}

} // verus!
