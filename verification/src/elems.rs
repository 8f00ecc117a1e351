//! Set operations over vectors of keyed elements.
use vstd::prelude::*;

use crate::order::Cmp;
use crate::sorted::Keyed;

verus! {

/// The key views of a sequence of elements.
pub open spec fn kseq<K: Keyed>(v: Seq<K>) -> Seq<K::KeyView> {
    v.map_values(|x: K| x.kv())
}

/// The set of key views held by `v`.
pub open spec fn kset<K: Keyed>(v: Seq<K>) -> Set<K::KeyView> {
    kseq(v).to_set()
}


pub proof fn lemma_push_contains<A>(s: Seq<A>, e: A)
    ensures
        forall|x: A| #[trigger] s.push(e).contains(x) <==> (s.contains(x) || x == e),
{
    assert forall|x: A| #[trigger] s.push(e).contains(x) <==> (s.contains(x) || x == e) by {
        if s.contains(x) {
            let k = choose|k: int| 0 <= k < s.len() && s[k] == x;
            assert(s.push(e)[k] == x);
        }
        if x == e {
            assert(s.push(e)[s.len() as int] == e);
        }
        if s.push(e).contains(x) {
            let k = choose|k: int| 0 <= k < s.push(e).len() && s.push(e)[k] == x;
            if k < s.len() {
                assert(s[k] == x);
            }
        }
    }
}

pub fn vec_contains<K: Keyed>(v: &Vec<K>, x: &K) -> (b: bool)
    ensures
        b == kseq(v@).contains(x.kv()),
{
    let mut i: usize = 0;
    while i < v.len()
        invariant
            i <= v@.len(),
            forall|k: int| 0 <= k < i ==> v@[k].kv() != x.kv(),
        decreases v@.len() - i,
    {
        match v[i].compare_key(x) {
            Cmp::Equal => {
                proof {
                    assert(kseq(v@)[i as int] == x.kv());
                }
                return true;
            },
            _ => {},
        }
        i = i + 1;
    }
    proof {
        if kseq(v@).contains(x.kv()) {
            let k = choose|k: int| 0 <= k < kseq(v@).len() && kseq(v@)[k] == x.kv();
            assert(v@[k].kv() == x.kv());
        }
    }
    false
}

/// The distinct elements of `v`, first occurrences first.
pub fn dedup<K: Keyed>(v: &Vec<K>) -> (r: Vec<K>)
    ensures
        kseq(r@).no_duplicates(),
        kset(r@) == kset(v@),
{
    let mut r: Vec<K> = Vec::new();
    let mut i: usize = 0;
    while i < v.len()
        invariant
            i <= v@.len(),
            kseq(r@).no_duplicates(),
            forall|x: K::KeyView| kseq(r@).contains(x) <==> kseq(v@.take(i as int)).contains(x),
        decreases v@.len() - i,
    {
        let ghost before = r@;
        proof {
            assert(v@.take(i + 1) =~= v@.take(i as int).push(v@[i as int]));
            assert(kseq(v@.take(i + 1)) =~= kseq(v@.take(i as int)).push(v@[i as int].kv()));
            lemma_push_contains(kseq(v@.take(i as int)), v@[i as int].kv());
        }
        if !vec_contains(&r, &v[i]) {
            let c = v[i].clone_key();
            r.push(c);
            proof {
                assert(kseq(r@) =~= kseq(before).push(c.kv()));
                lemma_push_contains(kseq(before), c.kv());
                assert forall|a: int, b: int|
                    0 <= a < b < kseq(r@).len() implies kseq(r@)[a] != kseq(r@)[b] by {
                    if b == kseq(r@).len() - 1 {
                        assert(kseq(before).contains(kseq(before)[a]));
                    }
                }
            }
        }
        i = i + 1;
    }
    proof {
        assert(v@.take(i as int) =~= v@);
        assert(kset(r@) =~= kset(v@));
    }
    r
}

/// Whether every element of `a` occurs in `b`.
pub fn is_subset<K: Keyed>(a: &Vec<K>, b: &Vec<K>) -> (r: bool)
    ensures
        r == kset(a@).subset_of(kset(b@)),
{
    let mut i: usize = 0;
    while i < a.len()
        invariant
            i <= a@.len(),
            forall|k: int| 0 <= k < i ==> kseq(b@).contains(#[trigger] a@[k].kv()),
        decreases a@.len() - i,
    {
        if !vec_contains(b, &a[i]) {
            proof {
                assert(kseq(a@)[i as int] == a@[i as int].kv());
                assert(kset(a@).contains(a@[i as int].kv()));
            }
            return false;
        }
        i = i + 1;
    }
    proof {
        assert forall|x: K::KeyView| kset(a@).contains(x) implies kset(b@).contains(x) by {
            let k = choose|k: int| 0 <= k < kseq(a@).len() && kseq(a@)[k] == x;
            assert(a@[k].kv() == x);
        }
    }
    true
}

/// The sizes of the intersection and of the union of the element sets of
/// `a` and `b`.
pub fn overlap_counts<K: Keyed>(a: &Vec<K>, b: &Vec<K>) -> (r: (usize, usize))
    ensures
        r.0 == kset(a@).intersect(kset(b@)).len(),
        r.1 == kset(a@).union(kset(b@)).len(),
        r.0 <= r.1,
{
    let da = dedup(a);
    let db = dedup(b);
    let mut inter: Vec<K> = Vec::new();
    let mut uni: Vec<K> = Vec::new();
    let mut i: usize = 0;
    while i < da.len()
        invariant
            i <= da@.len(),
            kseq(da@).no_duplicates(),
            kseq(inter@).no_duplicates(),
            kseq(uni@) == kseq(da@.take(i as int)),
            forall|x: K::KeyView|
                kseq(inter@).contains(x) <==> (kseq(da@.take(i as int)).contains(x) && kseq(db@).contains(x)),
        decreases da@.len() - i,
    {
        let ghost before = inter@;
        proof {
            assert(da@.take(i + 1) =~= da@.take(i as int).push(da@[i as int]));
            assert(kseq(da@.take(i + 1)) =~= kseq(da@.take(i as int)).push(da@[i as int].kv()));
            lemma_push_contains(kseq(da@.take(i as int)), da@[i as int].kv());
            assert(!kseq(da@.take(i as int)).contains(da@[i as int].kv())) by {
                if kseq(da@.take(i as int)).contains(da@[i as int].kv()) {
                    let k = choose|k: int| 0 <= k < kseq(da@.take(i as int)).len() && kseq(da@.take(i as int))[k] == da@[i as int].kv();
                    assert(kseq(da@)[k] == kseq(da@)[i as int]);
                }
            }
        }
        if vec_contains(&db, &da[i]) {
            let c = da[i].clone_key();
            inter.push(c);
            proof {
                assert(kseq(inter@) =~= kseq(before).push(c.kv()));
                lemma_push_contains(kseq(before), c.kv());
                assert forall|p: int, q: int|
                    0 <= p < q < kseq(inter@).len() implies kseq(inter@)[p] != kseq(inter@)[q] by {
                    if q == kseq(inter@).len() - 1 {
                        assert(kseq(before).contains(kseq(before)[p]));
                    }
                }
            }
        }
        let c2 = da[i].clone_key();
        uni.push(c2);
        proof {
            assert(kseq(uni@) =~= kseq(da@.take(i + 1)));
        }
        i = i + 1;
    }
    let mut j: usize = 0;
    proof {
        assert(da@.take(i as int) =~= da@);
    }
    while j < db.len()
        invariant
            j <= db@.len(),
            kseq(db@).no_duplicates(),
            kseq(uni@).no_duplicates(),
            forall|x: K::KeyView|
                kseq(uni@).contains(x) <==> (kseq(da@).contains(x) || kseq(db@.take(j as int)).contains(x)),
        decreases db@.len() - j,
    {
        let ghost before = uni@;
        proof {
            assert(db@.take(j + 1) =~= db@.take(j as int).push(db@[j as int]));
            assert(kseq(db@.take(j + 1)) =~= kseq(db@.take(j as int)).push(db@[j as int].kv()));
            lemma_push_contains(kseq(db@.take(j as int)), db@[j as int].kv());
        }
        if !vec_contains(&uni, &db[j]) {
            let c = db[j].clone_key();
            uni.push(c);
            proof {
                assert(kseq(uni@) =~= kseq(before).push(c.kv()));
                lemma_push_contains(kseq(before), c.kv());
                assert forall|p: int, q: int|
                    0 <= p < q < kseq(uni@).len() implies kseq(uni@)[p] != kseq(uni@)[q] by {
                    if q == kseq(uni@).len() - 1 {
                        assert(kseq(before).contains(kseq(before)[p]));
                    }
                }
            }
        }
        j = j + 1;
    }
    proof {
        assert(db@.take(j as int) =~= db@);
        assert(kset(inter@) =~= kset(a@).intersect(kset(b@)));
        assert(kset(uni@) =~= kset(a@).union(kset(b@)));
        kseq(inter@).unique_seq_to_set();
        kseq(uni@).unique_seq_to_set();
        vstd::seq_lib::seq_to_set_is_finite(kseq(uni@));
        vstd::set_lib::lemma_len_subset(kset(inter@), kset(uni@));
    }
    (inter.len(), uni.len())
}

} // verus!
