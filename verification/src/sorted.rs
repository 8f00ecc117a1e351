use vstd::prelude::*;

use crate::order::Cmp;

verus! {

/// A key type with a strict total order on its abstract view.
pub trait Keyed: Sized {
    type KeyView;

    spec fn kv(&self) -> Self::KeyView;

    spec fn key_lt(a: Self::KeyView, b: Self::KeyView) -> bool;

    proof fn lemma_key_irreflexive(a: Self::KeyView)
        ensures
            !Self::key_lt(a, a),
    ;

    proof fn lemma_key_transitive(a: Self::KeyView, b: Self::KeyView, c: Self::KeyView)
        requires
            Self::key_lt(a, b),
            Self::key_lt(b, c),
        ensures
            Self::key_lt(a, c),
    ;

    proof fn lemma_key_total(a: Self::KeyView, b: Self::KeyView)
        ensures
            Self::key_lt(a, b) || Self::key_lt(b, a) || a == b,
    ;

    fn compare_key(&self, other: &Self) -> (r: Cmp)
        ensures
            r == Cmp::Less <==> Self::key_lt(self.kv(), other.kv()),
            r == Cmp::Greater <==> Self::key_lt(other.kv(), self.kv()),
            r == Cmp::Equal <==> self.kv() == other.kv(),
    ;

    fn clone_key(&self) -> (r: Self)
        ensures
            r.kv() == self.kv(),
    ;
}

/// A map kept as a vector of entries sorted strictly by key.
#[derive(Debug)]
pub struct SortedMap<K, V> {
    pub entries: Vec<(K, V)>,
}

impl<K: Keyed, V> SortedMap<K, V> {
    /// The keys, in order.
    pub open spec fn keys(&self) -> Seq<K::KeyView> {
        self.entries@.map_values(|e: (K, V)| e.0.kv())
    }

    /// Keys strictly increase.
    pub open spec fn wf(&self) -> bool {
        forall|i: int, j: int|
            0 <= i < j < self.entries@.len() ==> #[trigger] K::key_lt(
                self.entries@[i].0.kv(),
                self.entries@[j].0.kv(),
            )
    }

    /// Whether `k` is a key of the map.
    pub open spec fn has(&self, k: K::KeyView) -> bool {
        exists|i: int| 0 <= i < self.entries@.len() && #[trigger] self.entries@[i].0.kv() == k
    }

    /// The value stored under `k`, if any.
    pub open spec fn lookup(&self, k: K::KeyView) -> Option<V> {
        if self.has(k) {
            let i = choose|i: int| 0 <= i < self.entries@.len() && #[trigger] self.entries@[i].0.kv() == k;
            Some(self.entries@[i].1)
        } else {
            None
        }
    }

    pub proof fn lemma_lookup_at(&self, i: int)
        requires
            self.wf(),
            0 <= i < self.entries@.len(),
        ensures
            self.has(self.entries@[i].0.kv()),
            self.lookup(self.entries@[i].0.kv()) == Some(self.entries@[i].1),
    {
        let k = self.entries@[i].0.kv();
        assert(self.has(k));
        let j = choose|j: int| 0 <= j < self.entries@.len() && #[trigger] self.entries@[j].0.kv() == k;
        if j != i {
            K::lemma_key_irreflexive(k);
            if j < i {
                assert(K::key_lt(self.entries@[j].0.kv(), self.entries@[i].0.kv()));
            } else {
                assert(K::key_lt(self.entries@[i].0.kv(), self.entries@[j].0.kv()));
            }
        }
    }

    pub fn new() -> (m: Self)
        ensures
            m.wf(),
            m.entries@.len() == 0,
            forall|k: K::KeyView| !m.has(k),
    {
        SortedMap { entries: Vec::new() }
    }

    pub fn len(&self) -> (n: usize)
        ensures
            n == self.entries@.len(),
    {
        self.entries.len()
    }

    /// Binary search: `Ok(i)` when entry `i` holds `k`, else `Err(p)` with
    /// `p` the position where `k` would be inserted.
    pub fn find(&self, k: &K) -> (r: Result<usize, usize>)
        requires
            self.wf(),
        ensures
            match r {
                Ok(i) => i < self.entries@.len() && self.entries@[i as int].0.kv() == k.kv(),
                Err(p) => {
                    &&& p <= self.entries@.len()
                    &&& forall|i: int|
                        0 <= i < p ==> K::key_lt(#[trigger] self.entries@[i].0.kv(), k.kv())
                    &&& forall|i: int|
                        p <= i < self.entries@.len() ==> K::key_lt(
                            k.kv(),
                            #[trigger] self.entries@[i].0.kv(),
                        )
                    &&& !self.has(k.kv())
                },
            },
    {
        let mut lo: usize = 0;
        let mut hi: usize = self.entries.len();
        while lo < hi
            invariant
                self.wf(),
                lo <= hi <= self.entries@.len(),
                forall|i: int| 0 <= i < lo ==> K::key_lt(#[trigger] self.entries@[i].0.kv(), k.kv()),
                forall|i: int|
                    hi <= i < self.entries@.len() ==> K::key_lt(
                        k.kv(),
                        #[trigger] self.entries@[i].0.kv(),
                    ),
            decreases hi - lo,
        {
            let mid = lo + (hi - lo) / 2;
            match self.entries[mid].0.compare_key(k) {
                Cmp::Equal => {
                    return Ok(mid);
                },
                Cmp::Less => {
                    proof {
                        assert forall|i: int| 0 <= i < mid + 1 implies K::key_lt(
                            #[trigger] self.entries@[i].0.kv(),
                            k.kv(),
                        ) by {
                            if i < mid {
                                K::lemma_key_transitive(
                                    self.entries@[i].0.kv(),
                                    self.entries@[mid as int].0.kv(),
                                    k.kv(),
                                );
                            }
                        }
                    }
                    lo = mid + 1;
                },
                Cmp::Greater => {
                    proof {
                        assert forall|i: int| mid <= i < self.entries@.len() implies K::key_lt(
                            k.kv(),
                            #[trigger] self.entries@[i].0.kv(),
                        ) by {
                            if i > mid {
                                K::lemma_key_transitive(
                                    k.kv(),
                                    self.entries@[mid as int].0.kv(),
                                    self.entries@[i].0.kv(),
                                );
                            }
                        }
                    }
                    hi = mid;
                },
            }
        }
        proof {
            if self.has(k.kv()) {
                let j = choose|j: int| 0 <= j < self.entries@.len() && #[trigger] self.entries@[j].0.kv() == k.kv();
                K::lemma_key_irreflexive(k.kv());
                if j < lo {
                    assert(K::key_lt(self.entries@[j].0.kv(), k.kv()));
                } else {
                    assert(K::key_lt(k.kv(), self.entries@[j].0.kv()));
                }
            }
        }
        Err(lo)
    }

    /// The value under `k`, if any.
    pub fn get(&self, k: &K) -> (r: Option<&V>)
        requires
            self.wf(),
        ensures
            match r {
                Some(v) => self.lookup(k.kv()) == Some(*v),
                None => !self.has(k.kv()) && self.lookup(k.kv()) == None::<V>,
            },
    {
        match self.find(k) {
            Ok(i) => {
                proof {
                    self.lemma_lookup_at(i as int);
                }
                Some(&self.entries[i].1)
            },
            Err(_) => None,
        }
    }

    /// Whether `k` is a key.
    pub fn contains_key(&self, k: &K) -> (b: bool)
        requires
            self.wf(),
        ensures
            b == self.has(k.kv()),
    {
        match self.find(k) {
            Ok(i) => {
                proof {
                    self.lemma_lookup_at(i as int);
                }
                true
            },
            Err(_) => false,
        }
    }

    /// Stores `v` under `k`, replacing any previous value.
    pub fn insert(&mut self, k: K, v: V)
        requires
            old(self).wf(),
        ensures
            final(self).wf(),
            final(self).has(k.kv()),
            final(self).lookup(k.kv()) == Some(v),
            forall|q: K::KeyView|
                q != k.kv() ==> (#[trigger] final(self).has(q) == old(self).has(q) && final(self).lookup(q)
                    == old(self).lookup(q)),
            old(self).has(k.kv()) ==> final(self).entries@.len() == old(self).entries@.len(),
            !old(self).has(k.kv()) ==> final(self).entries@.len() == old(self).entries@.len() + 1,
    {
        let ghost pre = *self;
        match self.find(&k) {
            Ok(i) => {
                proof {
                    pre.lemma_lookup_at(i as int);
                }
                self.entries.set(i, (k, v));
                proof {
                    assert forall|a: int, b: int|
                        0 <= a < b < self.entries@.len() implies #[trigger] K::key_lt(
                        self.entries@[a].0.kv(),
                        self.entries@[b].0.kv(),
                    ) by {
                        assert(K::key_lt(pre.entries@[a].0.kv(), pre.entries@[b].0.kv()));
                    }
                    self.lemma_lookup_at(i as int);
                    assert forall|q: K::KeyView| q != k.kv() implies (#[trigger] self.has(q) == pre.has(q)
                        && self.lookup(q) == pre.lookup(q)) by {
                        if pre.has(q) {
                            let j = choose|j: int| 0 <= j < pre.entries@.len() && #[trigger] pre.entries@[j].0.kv() == q;
                            pre.lemma_lookup_at(j);
                            self.lemma_lookup_at(j);
                        }
                        if self.has(q) {
                            let j = choose|j: int| 0 <= j < self.entries@.len() && #[trigger] self.entries@[j].0.kv() == q;
                            pre.lemma_lookup_at(j);
                            self.lemma_lookup_at(j);
                        }
                    }
                }
            },
            Err(p) => {
                self.entries.insert(p, (k, v));
                proof {
                    assert(self.entries@ == pre.entries@.insert(p as int, (k, v)));
                    assert forall|a: int, b: int|
                        0 <= a < b < self.entries@.len() implies #[trigger] K::key_lt(
                        self.entries@[a].0.kv(),
                        self.entries@[b].0.kv(),
                    ) by {
                        if b < p {
                            assert(K::key_lt(pre.entries@[a].0.kv(), pre.entries@[b].0.kv()));
                        } else if b == p {
                        } else if a < p {
                            K::lemma_key_transitive(pre.entries@[a].0.kv(), k.kv(), pre.entries@[b - 1].0.kv());
                        } else if a == p {
                        } else {
                            assert(K::key_lt(pre.entries@[a - 1].0.kv(), pre.entries@[b - 1].0.kv()));
                        }
                    }
                    self.lemma_lookup_at(p as int);
                    assert forall|q: K::KeyView| q != k.kv() implies (#[trigger] self.has(q) == pre.has(q)
                        && self.lookup(q) == pre.lookup(q)) by {
                        if pre.has(q) {
                            let j = choose|j: int| 0 <= j < pre.entries@.len() && #[trigger] pre.entries@[j].0.kv() == q;
                            pre.lemma_lookup_at(j);
                            if j < p {
                                self.lemma_lookup_at(j);
                            } else {
                                assert(self.entries@[j + 1] == pre.entries@[j]);
                                self.lemma_lookup_at(j + 1);
                            }
                        }
                        if self.has(q) {
                            let j = choose|j: int| 0 <= j < self.entries@.len() && #[trigger] self.entries@[j].0.kv() == q;
                            self.lemma_lookup_at(j);
                            if j < p {
                                pre.lemma_lookup_at(j);
                            } else if j > p {
                                pre.lemma_lookup_at(j - 1);
                            }
                        }
                    }
                }
            },
        }
    }

    /// Removes the entry under `k`, returning its value.
    pub fn remove(&mut self, k: &K) -> (r: Option<V>)
        requires
            old(self).wf(),
        ensures
            final(self).wf(),
            r == old(self).lookup(k.kv()),
            !final(self).has(k.kv()),
            forall|q: K::KeyView|
                q != k.kv() ==> (#[trigger] final(self).has(q) == old(self).has(q) && final(self).lookup(q)
                    == old(self).lookup(q)),
    {
        let ghost pre = *self;
        match self.find(k) {
            Ok(i) => {
                proof {
                    pre.lemma_lookup_at(i as int);
                }
                let (_, v) = self.entries.remove(i);
                proof {
                    assert(self.entries@ == pre.entries@.remove(i as int));
                    assert forall|a: int, b: int|
                        0 <= a < b < self.entries@.len() implies #[trigger] K::key_lt(
                        self.entries@[a].0.kv(),
                        self.entries@[b].0.kv(),
                    ) by {
                        if b < i {
                            assert(K::key_lt(pre.entries@[a].0.kv(), pre.entries@[b].0.kv()));
                        } else if a < i {
                            assert(K::key_lt(pre.entries@[a].0.kv(), pre.entries@[b + 1].0.kv()));
                        } else {
                            assert(K::key_lt(pre.entries@[a + 1].0.kv(), pre.entries@[b + 1].0.kv()));
                        }
                    }
                    if self.has(k.kv()) {
                        let j = choose|j: int| 0 <= j < self.entries@.len() && #[trigger] self.entries@[j].0.kv() == k.kv();
                        K::lemma_key_irreflexive(k.kv());
                        if j < i {
                            assert(K::key_lt(pre.entries@[j].0.kv(), pre.entries@[i as int].0.kv()));
                        } else {
                            assert(K::key_lt(pre.entries@[i as int].0.kv(), pre.entries@[j + 1].0.kv()));
                        }
                    }
                    assert forall|q: K::KeyView| q != k.kv() implies (#[trigger] self.has(q) == pre.has(q)
                        && self.lookup(q) == pre.lookup(q)) by {
                        if pre.has(q) {
                            let j = choose|j: int| 0 <= j < pre.entries@.len() && #[trigger] pre.entries@[j].0.kv() == q;
                            pre.lemma_lookup_at(j);
                            if j < i {
                                self.lemma_lookup_at(j);
                            } else {
                                assert(j != i);
                                self.lemma_lookup_at(j - 1);
                            }
                        }
                        if self.has(q) {
                            let j = choose|j: int| 0 <= j < self.entries@.len() && #[trigger] self.entries@[j].0.kv() == q;
                            self.lemma_lookup_at(j);
                            if j < i {
                                pre.lemma_lookup_at(j);
                            } else {
                                pre.lemma_lookup_at(j + 1);
                            }
                        }
                    }
                }
                Some(v)
            },
            Err(_) => None,
        }
    }
}

} // verus!

verus! {

impl Keyed for String {
    type KeyView = Seq<char>;

    open spec fn kv(&self) -> Seq<char> {
        self@
    }

    open spec fn key_lt(a: Seq<char>, b: Seq<char>) -> bool {
        crate::order::lex_lt(a, b)
    }

    proof fn lemma_key_irreflexive(a: Seq<char>) {
        crate::order::lemma_lex_irreflexive(a);
    }

    proof fn lemma_key_transitive(a: Seq<char>, b: Seq<char>, c: Seq<char>) {
        crate::order::lemma_lex_transitive(a, b, c);
    }

    proof fn lemma_key_total(a: Seq<char>, b: Seq<char>) {
        crate::order::lemma_lex_total(a, b);
    }

    fn compare_key(&self, other: &Self) -> (r: Cmp) {
        let a = crate::text::chars_of(self.as_str());
        let b = crate::text::chars_of(other.as_str());
        crate::order::compare_chars(&a, &b)
    }

    fn clone_key(&self) -> (r: Self) {
        self.clone()
    }
}

} // verus!

verus! {

impl Keyed for i64 {
    type KeyView = i64;

    open spec fn kv(&self) -> i64 {
        *self
    }

    open spec fn key_lt(a: i64, b: i64) -> bool {
        a < b
    }

    proof fn lemma_key_irreflexive(a: i64) {
    }

    proof fn lemma_key_transitive(a: i64, b: i64, c: i64) {
    }

    proof fn lemma_key_total(a: i64, b: i64) {
    }

    fn compare_key(&self, other: &Self) -> (r: Cmp) {
        if *self < *other {
            Cmp::Less
        } else if *other < *self {
            Cmp::Greater
        } else {
            Cmp::Equal
        }
    }

    fn clone_key(&self) -> (r: Self) {
        *self
    }
}

impl Keyed for usize {
    type KeyView = usize;

    open spec fn kv(&self) -> usize {
        *self
    }

    open spec fn key_lt(a: usize, b: usize) -> bool {
        a < b
    }

    proof fn lemma_key_irreflexive(a: usize) {
    }

    proof fn lemma_key_transitive(a: usize, b: usize, c: usize) {
    }

    proof fn lemma_key_total(a: usize, b: usize) {
    }

    fn compare_key(&self, other: &Self) -> (r: Cmp) {
        if *self < *other {
            Cmp::Less
        } else if *other < *self {
            Cmp::Greater
        } else {
            Cmp::Equal
        }
    }

    fn clone_key(&self) -> (r: Self) {
        *self
    }
}

} // verus!
