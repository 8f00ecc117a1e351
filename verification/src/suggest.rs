//! Edit distance and did-you-mean suggestions for unknown labels.
use vstd::prelude::*;

use crate::order::{lex_lt, Cmp};
use crate::text::{chars_of, push_str};

verus! {

pub open spec fn min3(x: nat, y: nat, z: nat) -> nat {
    if x <= y && x <= z {
        x
    } else if y <= z {
        y
    } else {
        z
    }
}

/// Levenshtein distance: the least number of single-character insertions,
/// deletions and substitutions turning `a` into `b`.
pub open spec fn lev(a: Seq<char>, b: Seq<char>) -> nat
    decreases a.len() + b.len(),
{
    if a.len() == 0 {
        b.len()
    } else if b.len() == 0 {
        a.len()
    } else {
        min3(
            lev(a.drop_last(), b) + 1,
            lev(a, b.drop_last()) + 1,
            lev(a.drop_last(), b.drop_last()) + (if a.last() == b.last() { 0nat } else { 1nat }),
        )
    }
}

proof fn lemma_lev_bound(a: Seq<char>, b: Seq<char>)
    ensures
        lev(a, b) <= if a.len() >= b.len() { a.len() } else { b.len() },
    decreases a.len() + b.len(),
{
    if a.len() > 0 && b.len() > 0 {
        lemma_lev_bound(a.drop_last(), b.drop_last());
    }
}

/// Levenshtein distance between two strings, counted in characters.
pub fn edit_distance(a: &str, b: &str) -> (r: usize)
    requires
        a@.len() < usize::MAX,
        b@.len() < usize::MAX,
    ensures
        r == lev(a@, b@),
{
    let a = chars_of(a);
    let b = chars_of(b);
    if a.len() == 0 {
        return b.len();
    }
    if b.len() == 0 {
        return a.len();
    }
    let n = b.len();
    let mut prev: Vec<usize> = Vec::new();
    let mut j: usize = 0;
    while j <= n
        invariant
            j <= n + 1,
            n == b@.len(),
            n < usize::MAX,
            prev@.len() == j,
            forall|k: int| 0 <= k < j ==> #[trigger] prev@[k] == lev(Seq::<char>::empty(), b@.take(k)),
        decreases n + 1 - j,
    {
        prev.push(j);
        j = j + 1;
    }
    let mut i: usize = 1;
    while i <= a.len()
        invariant
            1 <= i <= a@.len() + 1,
            a@.len() < usize::MAX,
            n == b@.len(),
            n < usize::MAX,
            prev@.len() == n + 1,
            forall|k: int| 0 <= k <= n ==> #[trigger] prev@[k] == lev(a@.take(i - 1), b@.take(k)),
        decreases a@.len() + 1 - i,
    {
        let mut curr: Vec<usize> = Vec::new();
        curr.push(i);
        proof {
            assert(a@.take(i as int).len() > 0);
            assert(b@.take(0) =~= Seq::<char>::empty());
        }
        let mut j: usize = 1;
        while j <= n
            invariant
                1 <= i <= a@.len(),
                1 <= j <= n + 1,
                n == b@.len(),
                n < usize::MAX,
                a@.len() < usize::MAX,
                prev@.len() == n + 1,
                curr@.len() == j,
                forall|k: int| 0 <= k <= n ==> #[trigger] prev@[k] == lev(a@.take(i - 1), b@.take(k)),
                forall|k: int| 0 <= k < j ==> #[trigger] curr@[k] == lev(a@.take(i as int), b@.take(k)),
            decreases n + 1 - j,
        {
            let ghost x = a@.take(i as int);
            let ghost y = b@.take(j as int);
            proof {
                assert(x.drop_last() =~= a@.take(i - 1));
                assert(y.drop_last() =~= b@.take(j - 1));
                assert(x.last() == a@[i - 1]);
                assert(y.last() == b@[j - 1]);
                lemma_lev_bound(a@.take(i - 1), b@.take(j as int));
                lemma_lev_bound(a@.take(i as int), b@.take(j - 1));
                lemma_lev_bound(a@.take(i - 1), b@.take(j - 1));
            }
            let cost: usize = if a[i - 1] == b[j - 1] { 0 } else { 1 };
            let del = prev[j] + 1;
            let ins = curr[j - 1] + 1;
            let sub = prev[j - 1] + cost;
            let m = if del <= ins && del <= sub {
                del
            } else if ins <= sub {
                ins
            } else {
                sub
            };
            curr.push(m);
            j = j + 1;
        }
        prev = curr;
        i = i + 1;
    }
    proof {
        assert(a@.take(a@.len() as int) =~= a@);
        assert(b@.take(n as int) =~= b@);
    }
    prev[n]
}

/// The candidates within distance two of `query`, best first: the
/// smaller distance wins, and among equal distances the smaller name.
pub open spec fn better(query: Seq<char>, x: Seq<char>, y: Seq<char>) -> bool {
    lev(query, x) < lev(query, y) || (lev(query, x) == lev(query, y) && lex_lt(x, y))
}

/// The did-you-mean text for a chosen candidate.
pub open spec fn suggestion_text(name: Seq<char>) -> Seq<char> {
    "did you mean `"@ + name + "`?"@
}

/// `r` is the suggestion for `query` among `known`: `None` when no name
/// is within edit distance two, else the text naming the closest such
/// name, ties broken by the smaller name.
pub open spec fn is_suggestion(query: Seq<char>, known: Seq<Seq<char>>, r: Option<Seq<char>>) -> bool {
    match r {
        None => forall|i: int| 0 <= i < known.len() ==> lev(query, #[trigger] known[i]) > 2,
        Some(s) => exists|i: int|
            0 <= i < known.len() && #[trigger] known[i] == known[i] && {
                let best = known[i];
                &&& s == suggestion_text(best)
                &&& lev(query, best) <= 2
                &&& forall|j: int|
                    0 <= j < known.len() && lev(query, #[trigger] known[j]) <= 2 ==> known[j] == best
                        || better(query, best, known[j])
            },
    }
}

/// Suggests the known name closest to `query` within edit distance two,
/// ties broken by the smaller name; `None` when no name is that close.
pub fn suggest_label(query: &str, known: &Vec<String>) -> (r: Option<String>)
    requires
        query@.len() < usize::MAX,
        forall|i: int| 0 <= i < known@.len() ==> #[trigger] known@[i]@.len() < usize::MAX,
    ensures
        match r {
            None => forall|i: int| 0 <= i < known@.len() ==> lev(query@, #[trigger] known@[i]@) > 2,
            Some(s) => exists|i: int|
                0 <= i < known@.len() && #[trigger] known@[i]@ == known@[i]@ && {
                    let best = known@[i]@;
                    &&& s@ == suggestion_text(best)
                    &&& lev(query@, best) <= 2
                    &&& forall|j: int|
                        0 <= j < known@.len() && lev(query@, #[trigger] known@[j]@) <= 2 ==> known@[j]@
                            == best || better(query@, best, known@[j]@)
                },
        },
{
    let mut best: Option<(usize, usize)> = None;
    let mut i: usize = 0;
    while i < known.len()
        invariant
            i <= known@.len(),
            query@.len() < usize::MAX,
            forall|k: int| 0 <= k < known@.len() ==> #[trigger] known@[k]@.len() < usize::MAX,
            match best {
                None => forall|k: int| 0 <= k < i ==> lev(query@, #[trigger] known@[k]@) > 2,
                Some((d, bi)) => {
                    &&& bi < i
                    &&& d == lev(query@, known@[bi as int]@)
                    &&& d <= 2
                    &&& forall|k: int|
                        0 <= k < i && lev(query@, #[trigger] known@[k]@) <= 2 ==> known@[k]@
                            == known@[bi as int]@ || better(query@, known@[bi as int]@, known@[k]@)
                },
            },
        decreases known@.len() - i,
    {
        let d = edit_distance(query, known[i].as_str());
        if d <= 2 {
            match best {
                None => {
                    best = Some((d, i));
                },
                Some((bd, bi)) => {
                    let ca = chars_of(known[i].as_str());
                    let cb = chars_of(known[bi].as_str());
                    let c = crate::order::compare_chars(&ca, &cb);
                    if d < bd || (d == bd && c == Cmp::Less) {
                        proof {
                            assert forall|k: int|
                                0 <= k < i + 1 && lev(query@, #[trigger] known@[k]@) <= 2 implies known@[k]@
                                    == known@[i as int]@ || better(query@, known@[i as int]@, known@[k]@) by {
                                if k < i && known@[k]@ != known@[bi as int]@ {
                                    assert(better(query@, known@[bi as int]@, known@[k]@));
                                    if d == bd && lex_lt(known@[bi as int]@, known@[k]@) && lev(query@, known@[k]@) == d {
                                        crate::order::lemma_lex_transitive(known@[i as int]@, known@[bi as int]@, known@[k]@);
                                    }
                                }
                            }
                        }
                        best = Some((d, i));
                    } else {
                        proof {
                            crate::order::lemma_lex_total(known@[i as int]@, known@[bi as int]@);
                        }
                    }
                },
            }
        }
        i = i + 1;
    }
    match best {
        None => None,
        Some((_, bi)) => {
            let mut out = String::new();
            push_str(&mut out, "did you mean `");
            push_str(&mut out, known[bi].as_str());
            push_str(&mut out, "`?");
            proof {
                assert(known@[bi as int]@ == known@[bi as int]@);
            }
            Some(out)
        },
    }
}

} // verus!
