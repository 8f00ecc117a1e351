use vstd::prelude::*;

verus! {

/// Result of a three-way comparison.
#[derive(Clone, Copy, Debug, PartialEq, Eq, Structural)]
pub enum Cmp {
    Less,
    Equal,
    Greater,
}

/// Lexicographic order on character sequences, comparing characters by
/// code point; a proper prefix sorts first. For strings this is the order
/// that `str::cmp` uses (UTF-8 byte order agrees with code-point order).
pub open spec fn lex_lt(a: Seq<char>, b: Seq<char>) -> bool
    decreases a.len(),
{
    if b.len() == 0 {
        false
    } else if a.len() == 0 {
        true
    } else if (a[0] as int) < (b[0] as int) {
        true
    } else if a[0] == b[0] {
        lex_lt(a.drop_first(), b.drop_first())
    } else {
        false
    }
}

pub proof fn lemma_lex_irreflexive(a: Seq<char>)
    ensures
        !lex_lt(a, a),
    decreases a.len(),
{
    if a.len() > 0 {
        lemma_lex_irreflexive(a.drop_first());
    }
}

pub proof fn lemma_lex_asymmetric(a: Seq<char>, b: Seq<char>)
    ensures
        !(lex_lt(a, b) && lex_lt(b, a)),
    decreases a.len(),
{
    if a.len() > 0 && b.len() > 0 && a[0] == b[0] {
        lemma_lex_asymmetric(a.drop_first(), b.drop_first());
    }
}

pub proof fn lemma_lex_transitive(a: Seq<char>, b: Seq<char>, c: Seq<char>)
    requires
        lex_lt(a, b),
        lex_lt(b, c),
    ensures
        lex_lt(a, c),
    decreases a.len(),
{
    if a.len() > 0 && b.len() > 0 && c.len() > 0 && a[0] == b[0] && b[0] == c[0] {
        lemma_lex_transitive(a.drop_first(), b.drop_first(), c.drop_first());
    }
}

pub proof fn lemma_lex_total(a: Seq<char>, b: Seq<char>)
    ensures
        lex_lt(a, b) || lex_lt(b, a) || a == b,
    decreases a.len(),
{
    if a.len() > 0 && b.len() > 0 && a[0] == b[0] {
        lemma_lex_total(a.drop_first(), b.drop_first());
        if a.drop_first() == b.drop_first() {
            assert(a =~= seq![a[0]] + a.drop_first());
            assert(b =~= seq![b[0]] + b.drop_first());
        }
    } else if a.len() == 0 && b.len() == 0 {
        assert(a =~= b);
    } else if a.len() > 0 && b.len() > 0 {
        assert((a[0] as int) != (b[0] as int));
    }
}

/// Comparing past a common prefix of length `i` is comparing the rests.
pub proof fn lemma_lex_skip(a: Seq<char>, b: Seq<char>, i: int)
    requires
        0 <= i <= a.len(),
        i <= b.len(),
        a.take(i) == b.take(i),
    ensures
        lex_lt(a, b) == lex_lt(a.skip(i), b.skip(i)),
    decreases i,
{
    if i > 0 {
        assert(a[0] == a.take(i)[0]);
        assert(b[0] == b.take(i)[0]);
        let a1 = a.drop_first();
        let b1 = b.drop_first();
        assert(a1.take(i - 1) =~= a.take(i).drop_first());
        assert(b1.take(i - 1) =~= b.take(i).drop_first());
        lemma_lex_skip(a1, b1, i - 1);
        assert(a1.skip(i - 1) =~= a.skip(i));
        assert(b1.skip(i - 1) =~= b.skip(i));
    } else {
        assert(a.skip(0) =~= a);
        assert(b.skip(0) =~= b);
    }
}

/// Three-way comparison of two character sequences held as vectors.
pub fn compare_chars(a: &Vec<char>, b: &Vec<char>) -> (r: Cmp)
    ensures
        r == Cmp::Less <==> lex_lt(a@, b@),
        r == Cmp::Greater <==> lex_lt(b@, a@),
        r == Cmp::Equal <==> a@ == b@,
{
    let mut i: usize = 0;
    while i < a.len() && i < b.len()
        invariant
            i <= a.len(),
            i <= b.len(),
            a@.take(i as int) == b@.take(i as int),
        decreases a.len() - i,
    {
        if a[i] < b[i] {
            proof {
                lemma_lex_skip(a@, b@, i as int);
                lemma_lex_skip(b@, a@, i as int);
                lemma_lex_asymmetric(a@, b@);
                assert(a@[i as int] != b@[i as int]);
            }
            return Cmp::Less;
        } else if b[i] < a[i] {
            proof {
                lemma_lex_skip(a@, b@, i as int);
                lemma_lex_skip(b@, a@, i as int);
                lemma_lex_asymmetric(a@, b@);
                assert(a@[i as int] != b@[i as int]);
            }
            return Cmp::Greater;
        }
        proof {
            assert(a@[i as int] == b@[i as int]);
            assert(a@.take(i + 1) =~= a@.take(i as int).push(a@[i as int]));
            assert(b@.take(i + 1) =~= b@.take(i as int).push(b@[i as int]));
        }
        i = i + 1;
    }
    proof {
        lemma_lex_skip(a@, b@, i as int);
        lemma_lex_skip(b@, a@, i as int);
        lemma_lex_irreflexive(a@);
        if i == a.len() && i == b.len() {
            assert(a@ =~= a@.take(i as int));
            assert(b@ =~= b@.take(i as int));
        } else if i == a.len() {
            assert(a@ =~= a@.take(i as int));
            assert(a@.len() != b@.len());
        } else {
            assert(b@ =~= b@.take(i as int));
            assert(a@.len() != b@.len());
        }
    }
    if a.len() == b.len() {
        Cmp::Equal
    } else if a.len() < b.len() {
        Cmp::Less
    } else {
        Cmp::Greater
    }
}

} // verus!

verus! {

/// `s` is strictly increasing under `lt`.
pub open spec fn sorted_by<T>(s: Seq<T>, lt: spec_fn(T, T) -> bool) -> bool {
    forall|a: int, b: int| 0 <= a < b < s.len() ==> #[trigger] lt(s[a], s[b])
}

/// `lt` is a strict total order on the elements of `s`.
pub open spec fn strict_total_on<T>(s: Seq<T>, lt: spec_fn(T, T) -> bool) -> bool {
    &&& forall|x: T| #[trigger] s.contains(x) ==> !lt(x, x)
    &&& forall|x: T, y: T| s.contains(x) && s.contains(y) && #[trigger] lt(x, y) ==> !lt(y, x)
    &&& forall|x: T, y: T| #[trigger] s.contains(x) && #[trigger] s.contains(y) ==> lt(x, y) || lt(y, x) || x == y
}

/// Two sequences strictly increasing under the same strict total order and
/// holding the same elements are equal: a finite set has one sorted
/// enumeration.
pub proof fn lemma_sorted_unique<T>(a: Seq<T>, b: Seq<T>, lt: spec_fn(T, T) -> bool)
    requires
        sorted_by(a, lt),
        sorted_by(b, lt),
        strict_total_on(a, lt),
        forall|x: T| a.contains(x) <==> b.contains(x),
    ensures
        a == b,
    decreases a.len(),
{
    if a.len() == 0 {
        if b.len() > 0 {
            assert(b.contains(b[0]));
        }
        assert(a =~= b);
    } else {
        assert(a.contains(a[0]));
        assert(b.len() > 0);
        let x = a[0];
        let y = b[0];
        assert(b.contains(y));
        assert(a.contains(y));
        if x != y {
            let j = choose|j: int| 0 <= j < b.len() && b[j] == x;
            let k = choose|k: int| 0 <= k < a.len() && a[k] == y;
            assert(j != 0);
            assert(k != 0);
            assert(lt(b[0], b[j]));
            assert(lt(a[0], a[k]));
            assert(false);
        }
        let a1 = a.drop_first();
        let b1 = b.drop_first();
        assert forall|z: T| a1.contains(z) <==> b1.contains(z) by {
            if a1.contains(z) {
                let i = choose|i: int| 0 <= i < a1.len() && a1[i] == z;
                assert(a[i + 1] == z);
                assert(lt(a[0], a[i + 1]));
                assert(b.contains(z));
                let j = choose|j: int| 0 <= j < b.len() && b[j] == z;
                if j == 0 {
                    assert(z == x);
                    assert(!lt(x, x));
                }
                assert(b1[j - 1] == z);
            }
            if b1.contains(z) {
                let i = choose|i: int| 0 <= i < b1.len() && b1[i] == z;
                assert(b[i + 1] == z);
                assert(lt(b[0], b[i + 1]));
                assert(a.contains(z));
                let j = choose|j: int| 0 <= j < a.len() && a[j] == z;
                if j == 0 {
                    assert(z == x);
                    assert(!lt(x, x));
                }
                assert(a1[j - 1] == z);
            }
        }
        assert(sorted_by(a1, lt)) by {
            assert forall|p: int, q: int| 0 <= p < q < a1.len() implies #[trigger] lt(a1[p], a1[q]) by {
                assert(lt(a[p + 1], a[q + 1]));
            }
        }
        assert(sorted_by(b1, lt)) by {
            assert forall|p: int, q: int| 0 <= p < q < b1.len() implies #[trigger] lt(b1[p], b1[q]) by {
                assert(lt(b[p + 1], b[q + 1]));
            }
        }
        assert(strict_total_on(a1, lt)) by {
            assert forall|z: T| #[trigger] a1.contains(z) implies a.contains(z) by {
                let i = choose|i: int| 0 <= i < a1.len() && a1[i] == z;
                assert(a[i + 1] == z);
            }
        }
        lemma_sorted_unique(a1, b1, lt);
        assert(a =~= seq![x] + a1);
        assert(b =~= seq![y] + b1);
    }
}

} // verus!
