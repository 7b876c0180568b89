use vstd::prelude::*;

verus! {

// A recency-ordered store of directory paths.  The abstract state of a store
// is a duplicate-free sequence of paths (each path a `Seq<char>`), with the
// most recently accessed path first and the least recent one last.

/// The store after `p` moved to the most-recent (front) position.
pub open spec fn promote(s: Seq<Seq<char>>, p: Seq<char>) -> Seq<Seq<char>> {
    seq![p] + s.remove_value(p)
}

/// The store after `access(p)`: move-to-front when `p` is tracked, and a
/// no-op when it is not.
pub open spec fn access_model(s: Seq<Seq<char>>, p: Seq<char>) -> Seq<Seq<char>> {
    if s.contains(p) {
        promote(s, p)
    } else {
        s
    }
}

/// The store after `add(p)`: an access when `p` is already tracked, else `p`
/// is appended at the least-recent (back) end.
pub open spec fn add_model(s: Seq<Seq<char>>, p: Seq<char>) -> Seq<Seq<char>> {
    if s.contains(p) {
        promote(s, p)
    } else {
        s.push(p)
    }
}

/// `remove_value` removes exactly the occurrence at `i` when `i` is the first
/// index holding `p`.
proof fn lemma_remove_value_at(s: Seq<Seq<char>>, p: Seq<char>, i: int)
    requires
        0 <= i < s.len(),
        s[i] == p,
        forall|j: int| 0 <= j < i ==> s[j] != p,
    ensures
        s.remove_value(p) == s.remove(i),
{
    assert(s.contains(p));
    s.index_of_first_ensures(p);
    match s.index_of_first(p) {
        Some(k) => {
            assert(k == i);
        },
        None => {
            assert(false);
        },
    }
}

/// Moving a tracked path to the front keeps the store's membership and its
/// freedom from duplicates, and puts that path first.
pub proof fn lemma_promote_props(s: Seq<Seq<char>>, p: Seq<char>)
    requires
        s.no_duplicates(),
        s.contains(p),
    ensures
        promote(s, p).no_duplicates(),
        promote(s, p).len() == s.len(),
        promote(s, p).to_set() == s.to_set(),
        promote(s, p)[0] == p,
        promote(s, p).contains(p),
{
    s.index_of_first_ensures(p);
    match s.index_of_first(p) {
        Some(i) => {
            s.remove_ensures(i);
            let r = s.remove(i);
            let t = promote(s, p);
            assert(t == seq![p] + r);
            assert forall|x: Seq<char>| t.contains(x) implies s.contains(x) by {
                let k = choose|k: int| 0 <= k < t.len() && t[k] == x;
                if k == 0 {
                } else if k <= i {
                    assert(s[k - 1] == x);
                } else {
                    assert(s[k] == x);
                }
            }
            assert forall|x: Seq<char>| s.contains(x) implies t.contains(x) by {
                let k = choose|k: int| 0 <= k < s.len() && s[k] == x;
                if k == i {
                    assert(t[0] == x);
                } else if k < i {
                    assert(t[k + 1] == x);
                } else {
                    assert(t[k] == x);
                }
            }
            assert(t.to_set() =~= s.to_set());
            // `r` holds every element of `s` but the single `p`, so prefixing
            // `p` again keeps the sequence duplicate-free.
            assert forall|a: int, b: int|
                0 <= a < t.len() && 0 <= b < t.len() && a != b implies t[a] != t[b] by {
                if a != 0 && b != 0 {
                    assert(t[a] == r[a - 1] && t[b] == r[b - 1]);
                } else if a == 0 {
                    assert(t[b] == r[b - 1]);
                    if b - 1 < i {
                        assert(r[b - 1] == s[b - 1]);
                    } else {
                        assert(r[b - 1] == s[b]);
                    }
                } else {
                    assert(t[a] == r[a - 1]);
                    if a - 1 < i {
                        assert(r[a - 1] == s[a - 1]);
                    } else {
                        assert(r[a - 1] == s[a]);
                    }
                }
            }
        },
        None => {
            assert(false);
        },
    }
}

/// Adding a path puts it in the store's membership and keeps the store free
/// of duplicates.
pub proof fn lemma_add_model_props(s: Seq<Seq<char>>, p: Seq<char>)
    requires
        s.no_duplicates(),
    ensures
        add_model(s, p).no_duplicates(),
        add_model(s, p).to_set() == s.to_set().insert(p),
        add_model(s, p).contains(p),
{
    if s.contains(p) {
        lemma_promote_props(s, p);
        assert(promote(s, p).to_set() =~= s.to_set().insert(p));
    } else {
        let t = s.push(p);
        assert forall|a: int, b: int|
            0 <= a < t.len() && 0 <= b < t.len() && a != b implies t[a] != t[b] by {
            if a < s.len() && b < s.len() {
            } else if a < s.len() {
                assert(s.contains(s[a]) && t[b] == p);
            } else {
                assert(s.contains(s[b]) && t[a] == p);
            }
        }
        assert(t[s.len() as int] == p);
        assert forall|x: Seq<char>| t.contains(x) implies s.contains(x) || x == p by {
            let k = choose|k: int| 0 <= k < t.len() && t[k] == x;
            if k < s.len() {
                assert(s[k] == x);
            }
        }
        assert forall|x: Seq<char>| s.contains(x) implies t.contains(x) by {
            let k = choose|k: int| 0 <= k < s.len() && s[k] == x;
            assert(t[k] == x);
        }
        assert(t.to_set() =~= s.to_set().insert(p));
    }
}

/// Accessing the same path twice in a row leaves the store exactly as one
/// access left it.
pub proof fn lemma_access_idempotent(s: Seq<Seq<char>>, p: Seq<char>)
    requires
        s.no_duplicates(),
    ensures
        access_model(access_model(s, p), p) == access_model(s, p),
{
    if s.contains(p) {
        lemma_promote_props(s, p);
        let t = promote(s, p);
        assert(t[0] == p);
        assert(t.contains(p));
        lemma_remove_value_at(t, p, 0);
        assert(t.remove(0) =~= s.remove_value(p));
        assert(promote(t, p) =~= t);
    }
}

/// An ordered, duplicate-free collection of path strings that keeps the most
/// recently accessed path at the front.  The linked ordering of the paths is
/// held as one vector, front first; repositioning rewires that vector.
pub struct LRUCache {
    order: Vec<String>,
}

impl View for LRUCache {
    type V = Seq<Seq<char>>;

    closed spec fn view(&self) -> Seq<Seq<char>> {
        self.order.deep_view()
    }
}

impl LRUCache {
    /// Every tracked path appears exactly once.
    pub open spec fn wf(&self) -> bool {
        self@.no_duplicates()
    }

    pub fn new() -> (r: Self)
        ensures
            r@ == Seq::<Seq<char>>::empty(),
            r.wf(),
    {
        let r = LRUCache { order: Vec::new() };
        proof {
            assert(r@ =~= Seq::<Seq<char>>::empty());
        }
        r
    }

    /// Position of the first (and, in a well-formed store, only) occurrence
    /// of `path`, if it is tracked.
    fn find(&self, path: &str) -> (r: Option<usize>)
        ensures
            match r {
                Some(i) => i < self@.len() && self@[i as int] == path@ && forall|j: int|
                    0 <= j < i ==> self@[j] != path@,
                None => !self@.contains(path@),
            },
    {
        let key = path.to_owned();
        let n = self.order.len();
        let mut i: usize = 0;
        while i < n
            invariant
                n == self@.len(),
                i <= n,
                key@ == path@,
                forall|j: int| 0 <= j < i ==> self@[j] != path@,
            decreases n - i,
        {
            if self.order[i] == key {
                return Some(i);
            }
            i += 1;
        }
        proof {
            assert forall|k: int| 0 <= k < self@.len() implies self@[k] != path@ by {}
        }
        None
    }

    /// Inserts `path` at the most-recent (front) end.
    fn insert_front(&mut self, path: &str)
        ensures
            final(self)@ == seq![path@] + old(self)@,
    {
        self.order.insert(0, path.to_owned());
        proof {
            assert(self@ =~= seq![path@] + old(self)@);
        }
    }

    /// Inserts `path` at the least-recent (back) end.
    fn insert_back(&mut self, path: &str)
        ensures
            final(self)@ == old(self)@.push(path@),
    {
        self.order.push(path.to_owned());
        proof {
            assert(self@ =~= old(self)@.push(path@));
        }
    }

    /// Unlinks the path at position `i`.
    fn remove(&mut self, i: usize)
        requires
            i < old(self)@.len(),
        ensures
            final(self)@ == old(self)@.remove(i as int),
    {
        let _unlinked = self.order.remove(i);
        proof {
            assert(self@ =~= old(self)@.remove(i as int));
        }
    }

    /// Records an access: a tracked path moves to the front, an untracked
    /// one leaves the store untouched.
    pub fn access(&mut self, path: &str)
        requires
            old(self).wf(),
        ensures
            final(self).wf(),
            final(self)@ == access_model(old(self)@, path@),
            old(self)@.contains(path@) ==> final(self)@.len() > 0 && final(self)@[0] == path@,
            !old(self)@.contains(path@) ==> final(self)@ == old(self)@,
            final(self)@.to_set() == old(self)@.to_set(),
    {
        match self.find(path) {
            Some(i) => {
                proof {
                    lemma_remove_value_at(old(self)@, path@, i as int);
                    lemma_promote_props(old(self)@, path@);
                }
                self.remove(i);
                self.insert_front(path);
                proof {
                    assert(self@ =~= promote(old(self)@, path@));
                }
            },
            None => {},
        }
    }

    /// Adds a path: an untracked path joins at the least-recent end, a
    /// tracked one is treated as an access.
    pub fn add(&mut self, path: &str)
        requires
            old(self).wf(),
        ensures
            final(self).wf(),
            final(self)@ == add_model(old(self)@, path@),
            final(self)@.to_set() == old(self)@.to_set().insert(path@),
            final(self)@.contains(path@),
    {
        proof {
            lemma_add_model_props(old(self)@, path@);
        }
        match self.find(path) {
            Some(_) => {
                self.access(path);
                proof {
                    assert(self@.to_set() =~= old(self)@.to_set().insert(path@));
                }
            },
            None => {
                self.insert_back(path);
                proof {
                    assert(self@ =~= add_model(old(self)@, path@));
                }
            },
        }
    }

    /// The full order, most recently accessed first.
    pub fn read_order(&self) -> (r: Vec<String>)
        ensures
            r.deep_view() == self@,
            self.wf() ==> r.deep_view().no_duplicates(),
    {
        let n = self.order.len();
        let mut r: Vec<String> = Vec::new();
        let mut i: usize = 0;
        while i < n
            invariant
                n == self@.len(),
                i <= n,
                r@.len() == i,
                forall|k: int| 0 <= k < i ==> #[trigger] r@[k]@ == self@[k],
            decreases n - i,
        {
            r.push(self.order[i].clone());
            proof {
                assert(r@[i as int] == self.order@[i as int]);
                assert(r@[i as int]@ == self@[i as int]);
            }
            i += 1;
        }
        proof {
            assert forall|k: int| 0 <= k < r.deep_view().len() implies r.deep_view()[k]
                == self@[k] by {
                assert(r.deep_view()[k] == r@[k].deep_view());
                assert(r@[k]@ == self@[k]);
            }
            assert(r.deep_view() =~= self@);
        }
        r
    }
}

/// A set of directory paths that share one basename, ranked so that the most
/// recently accessed path comes first.
pub struct Paths {
    items: LRUCache,
}

impl View for Paths {
    type V = Seq<Seq<char>>;

    closed spec fn view(&self) -> Seq<Seq<char>> {
        self.items@
    }
}

impl Paths {
    /// Every tracked path appears exactly once.
    pub open spec fn wf(&self) -> bool {
        self@.no_duplicates()
    }

    pub fn new() -> (r: Self)
        ensures
            r@ == Seq::<Seq<char>>::empty(),
            r.wf(),
    {
        Paths { items: LRUCache::new() }
    }

    /// Adds a path to the store; a path that is already tracked is treated
    /// as accessed instead.
    pub fn add(&mut self, path: &str)
        requires
            old(self).wf(),
        ensures
            final(self).wf(),
            final(self)@ == add_model(old(self)@, path@),
            final(self)@.to_set() == old(self)@.to_set().insert(path@),
            final(self)@.contains(path@),
    {
        self.items.add(path);
    }

    /// All tracked paths, most recently accessed first.
    pub fn get_all(&self) -> (r: Vec<String>)
        ensures
            r.deep_view() == self@,
            self.wf() ==> r.deep_view().no_duplicates(),
    {
        self.items.read_order()
    }

    /// Marks a path as just used, moving it to the front of the order; an
    /// untracked path is ignored.
    pub fn access(&mut self, path: &str)
        requires
            old(self).wf(),
        ensures
            final(self).wf(),
            final(self)@ == access_model(old(self)@, path@),
            old(self)@.contains(path@) ==> final(self)@.len() > 0 && final(self)@[0] == path@,
            !old(self)@.contains(path@) ==> final(self)@ == old(self)@,
            final(self)@.to_set() == old(self)@.to_set(),
    {
        self.items.access(path);
    }
}

} // verus!
