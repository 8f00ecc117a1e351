//! Whitespace-insensitive comparison of rendered signatures.
use vstd::prelude::*;

use crate::text::{is_white_space, is_ws, lead_ws, trim, trim_bounds, chars_of, string_from_chars};

verus! {

/// Collapses every whitespace run of `s` to one ASCII space; `prev_ws`
/// says whether a whitespace run is already open.
pub open spec fn collapse_ws(s: Seq<char>, prev_ws: bool) -> Seq<char>
    decreases s.len(),
{
    if s.len() == 0 {
        Seq::empty()
    } else if is_ws(s[0]) {
        if prev_ws {
            collapse_ws(s.drop_first(), true)
        } else {
            seq![' '] + collapse_ws(s.drop_first(), true)
        }
    } else {
        seq![s[0]] + collapse_ws(s.drop_first(), false)
    }
}

/// A signature with outer whitespace trimmed and every internal whitespace
/// run collapsed to a single ASCII space.
pub open spec fn normalized_signature(s: Seq<char>) -> Seq<char> {
    collapse_ws(trim(s), false)
}

/// Trims outer whitespace and collapses each internal whitespace run to a
/// single ASCII space.
pub fn normalize_signature(s: &str) -> (r: String)
    ensures
        r@ == normalized_signature(s@),
{
    let v = chars_of(s);
    let (start, end) = trim_bounds(&v);
    let ghost t = v@.subrange(start as int, end as int);
    let mut out: Vec<char> = Vec::new();
    let mut prev_ws = false;
    let mut i = start;
    proof {
        assert(t.skip(0) =~= t);
    }
    while i < end
        invariant
            start <= i <= end <= v@.len(),
            t == v@.subrange(start as int, end as int),
            out@ + collapse_ws(t.skip(i - start), prev_ws) == collapse_ws(t, false),
        decreases end - i,
    {
        let c = v[i];
        proof {
            let rest = t.skip(i - start);
            assert(rest[0] == c);
            assert(rest.drop_first() =~= t.skip(i + 1 - start));
        }
        if is_white_space(c) {
            if !prev_ws {
                out.push(' ');
                prev_ws = true;
                proof {
                    assert(out@ + collapse_ws(t.skip(i + 1 - start), true) =~= out@.drop_last() + (
                    seq![' '] + collapse_ws(t.skip(i + 1 - start), true)));
                }
            }
        } else {
            out.push(c);
            prev_ws = false;
            proof {
                assert(out@ + collapse_ws(t.skip(i + 1 - start), false) =~= out@.drop_last() + (
                seq![c] + collapse_ws(t.skip(i + 1 - start), false)));
            }
        }
        i = i + 1;
    }
    proof {
        assert(t.skip(i - start).len() == 0);
        assert(out@ =~= collapse_ws(t, false));
    }
    string_from_chars(out.as_slice())
}

/// Skips a whitespace run of `v` starting at `i` (stopping at `end`):
/// whether any whitespace was consumed, the next character if any, and
/// the position of that character.
fn skip_ws_run(v: &Vec<char>, i: usize, end: usize) -> (r: (bool, Option<char>, usize))
    requires
        i <= end <= v@.len(),
    ensures
        i <= r.2 <= end,
        r.0 == (r.2 > i),
        forall|k: int| i <= k < r.2 ==> is_ws(#[trigger] v@[k]),
        r.2 < end ==> !is_ws(v@[r.2 as int]) && r.1 == Some(v@[r.2 as int]),
        r.2 == end ==> r.1 == None::<char>,
        r.2 - i == lead_ws(v@.subrange(i as int, end as int)),
{
    let mut j = i;
    proof {
        assert(v@.subrange(i as int, end as int) =~= v@.subrange(i as int, end as int).skip(0));
    }
    while j < end && is_white_space(v[j])
        invariant
            i <= j <= end <= v@.len(),
            forall|k: int| i <= k < j ==> is_ws(#[trigger] v@[k]),
            lead_ws(v@.subrange(i as int, end as int)) == (j - i) + lead_ws(v@.subrange(j as int, end as int)),
        decreases end - j,
    {
        proof {
            assert(v@.subrange(j as int, end as int).drop_first() =~= v@.subrange(j + 1, end as int));
        }
        j = j + 1;
    }
    proof {
        if j < end {
            assert(v@.subrange(j as int, end as int)[0] == v@[j as int]);
        }
    }
    if j < end {
        (j > i, Some(v[j]), j)
    } else {
        (j > i, None, j)
    }
}

/// Collapsing a whitespace run of length `k` followed by a non-whitespace
/// character yields one space (when `k > 0`) then that character.
proof fn lemma_collapse_step(s: Seq<char>)
    requires
        lead_ws(s) < s.len(),
    ensures
        ({
            let k = lead_ws(s) as int;
            collapse_ws(s, false) == (if k > 0 { seq![' '] } else { Seq::<char>::empty() }) + (seq![
                s[k]] + collapse_ws(s.skip(k + 1), false))
        }),
    decreases s.len(),
{
    crate::text::lemma_lead_ws(s);
    let k = lead_ws(s) as int;
    if k == 0 {
        assert(s.drop_first() =~= s.skip(1));
        assert(collapse_ws(s, false) =~= Seq::<char>::empty() + (seq![s[0]] + collapse_ws(s.skip(1), false)));
    } else {
        lemma_collapse_open_run(s.drop_first());
        crate::text::lemma_lead_ws(s.drop_first());
        assert(s.drop_first().skip(k - 1) =~= s.skip(k));
        assert(s.skip(k)[0] == s[k]);
        assert(s.skip(k).drop_first() =~= s.skip(k + 1));
    }
}

/// Inside an open whitespace run, further whitespace adds nothing.
proof fn lemma_collapse_open_run(s: Seq<char>)
    requires
        lead_ws(s) < s.len(),
    ensures
        collapse_ws(s, true) == collapse_ws(s.skip(lead_ws(s) as int), false),
    decreases s.len(),
{
    crate::text::lemma_lead_ws(s);
    if lead_ws(s) > 0 {
        lemma_collapse_open_run(s.drop_first());
        assert(s.drop_first().skip(lead_ws(s.drop_first()) as int) =~= s.skip(lead_ws(s) as int));
    } else {
        assert(s.skip(0) =~= s);
    }
}

/// `true` iff the two signatures differ after whitespace normalisation,
/// decided in one pass over both inputs.
pub fn signatures_differ_modulo_whitespace(a: &str, b: &str) -> (r: bool)
    ensures
        r == (normalized_signature(a@) != normalized_signature(b@)),
{
    let va = chars_of(a);
    let vb = chars_of(b);
    let (sa, ea) = trim_bounds(&va);
    let (sb, eb) = trim_bounds(&vb);
    let ghost ta = va@.subrange(sa as int, ea as int);
    let ghost tb = vb@.subrange(sb as int, eb as int);
    proof {
        lemma_trim_ends(a@);
        lemma_trim_ends(b@);
        assert(ta.skip(0) =~= ta);
        assert(tb.skip(0) =~= tb);
    }
    let mut i = sa;
    let mut j = sb;
    loop
        invariant
            sa <= i <= ea <= va@.len(),
            sb <= j <= eb <= vb@.len(),
            ta == va@.subrange(sa as int, ea as int),
            tb == vb@.subrange(sb as int, eb as int),
            ta.len() > 0 ==> !is_ws(ta.last()),
            tb.len() > 0 ==> !is_ws(tb.last()),
            ta == trim(a@),
            tb == trim(b@),
            (collapse_ws(ta, false) == collapse_ws(tb, false)) == (collapse_ws(ta.skip(i - sa), false)
                == collapse_ws(tb.skip(j - sb), false)),
        decreases (ea - i) + (eb - j),
    {
        let (a_ws, a_next, i2) = skip_ws_run(&va, i, ea);
        let (b_ws, b_next, j2) = skip_ws_run(&vb, j, eb);
        let ghost ra = ta.skip(i - sa);
        let ghost rb = tb.skip(j - sb);
        proof {
            assert(ra =~= va@.subrange(i as int, ea as int));
            assert(rb =~= vb@.subrange(j as int, eb as int));
            if i2 == ea && i < ea {
                assert(ra.last() == va@[ea - 1]);
                assert(ta.last() == va@[ea - 1]);
            }
            if j2 == eb && j < eb {
                assert(rb.last() == vb@[eb - 1]);
                assert(tb.last() == vb@[eb - 1]);
            }
            if i2 < ea {
                lemma_collapse_step(ra);
                assert(ra.skip(i2 - i + 1) =~= ta.skip(i2 + 1 - sa));
                assert(ra[i2 - i] == va@[i2 as int]);
            } else {
                assert(ra.len() == 0);
            }
            if j2 < eb {
                lemma_collapse_step(rb);
                assert(rb.skip(j2 - j + 1) =~= tb.skip(j2 + 1 - sb));
                assert(rb[j2 - j] == vb@[j2 as int]);
            } else {
                assert(rb.len() == 0);
            }
        }
        if a_ws != b_ws {
            proof {
                let x = collapse_ws(ra, false);
                let y = collapse_ws(rb, false);
                if a_ws {
                    assert(x[0] == ' ');
                    assert(is_ws(' '));
                    if j2 < eb {
                        assert(y[0] == vb@[j2 as int]);
                    } else {
                        assert(y.len() == 0);
                    }
                } else {
                    assert(y[0] == ' ');
                    assert(is_ws(' '));
                    if i2 < ea {
                        assert(x[0] == va@[i2 as int]);
                    } else {
                        assert(x.len() == 0);
                    }
                }
            }
            return true;
        }
        match (a_next, b_next) {
            (None, None) => {
                return false;
            },
            (Some(ca), Some(cb)) => {
                if ca == cb {
                    proof {
                        let pa = if a_ws { seq![' '] } else { Seq::<char>::empty() };
                        let x1 = collapse_ws(ta.skip(i2 + 1 - sa), false);
                        let y1 = collapse_ws(tb.skip(j2 + 1 - sb), false);
                        assert(collapse_ws(ra, false) == pa + (seq![ca] + x1));
                        assert(collapse_ws(rb, false) == pa + (seq![cb] + y1));
                        if x1 != y1 {
                            assert((pa + (seq![ca] + x1)).skip(pa.len() as int + 1) =~= x1);
                            assert((pa + (seq![cb] + y1)).skip(pa.len() as int + 1) =~= y1);
                        }
                    }
                    i = i2 + 1;
                    j = j2 + 1;
                } else {
                    proof {
                        let pa = if a_ws { seq![' '] } else { Seq::<char>::empty() };
                        let x = collapse_ws(ra, false);
                        let y = collapse_ws(rb, false);
                        assert(x[pa.len() as int] == ca);
                        assert(y[pa.len() as int] == cb);
                    }
                    return true;
                }
            },
            _ => {
                proof {
                    let x = collapse_ws(ra, false);
                    let y = collapse_ws(rb, false);
                    if i2 < ea {
                        assert(x.len() > 0);
                        assert(y.len() == 0);
                    } else {
                        assert(y.len() > 0);
                        assert(x.len() == 0);
                    }
                }
                return true;
            },
        }
    }
}

/// A trimmed sequence is empty or ends in a non-whitespace character.
proof fn lemma_trim_ends(s: Seq<char>)
    ensures
        trim(s).len() > 0 ==> !is_ws(trim(s).last()),
        trim(s).len() > 0 ==> !is_ws(trim(s)[0]),
{
    crate::text::lemma_lead_ws(s);
    crate::text::lemma_trail_ws(s);
    if lead_ws(s) < s.len() {
        if s.len() - crate::text::trail_ws(s) <= lead_ws(s) {
            assert(is_ws(s[lead_ws(s) as int]));
        }
    }
}


proof fn lemma_collapse_idem(y: Seq<char>, p: bool)
    ensures
        collapse_ws(collapse_ws(y, p), p) == collapse_ws(y, p),
    decreases y.len(),
{
    if y.len() > 0 {
        let rest = y.drop_first();
        assert(is_ws(' ')) by {
            assert((' ' as u32) == 0x20);
        }
        if is_ws(y[0]) {
            lemma_collapse_idem(rest, true);
            if !p {
                let z = seq![' '] + collapse_ws(rest, true);
                assert(z.drop_first() =~= collapse_ws(rest, true));
            }
        } else {
            lemma_collapse_idem(rest, false);
            let z = seq![y[0]] + collapse_ws(rest, false);
            assert(z.drop_first() =~= collapse_ws(rest, false));
        }
    }
}

proof fn lemma_collapse_keeps_ends(y: Seq<char>, p: bool)
    requires
        y.len() > 0,
        !is_ws(y.last()),
    ensures
        collapse_ws(y, p).len() > 0,
        collapse_ws(y, p).last() == y.last(),
        !is_ws(y[0]) ==> collapse_ws(y, p)[0] == y[0],
    decreases y.len(),
{
    let rest = y.drop_first();
    if y.len() > 1 {
        assert(rest.last() == y.last());
        if is_ws(y[0]) {
            lemma_collapse_keeps_ends(rest, true);
            let c = collapse_ws(rest, true);
            if !p {
                let z = seq![' '] + c;
                assert(z[z.len() - 1] == c[c.len() - 1]);
            }
        } else {
            lemma_collapse_keeps_ends(rest, false);
            let c = collapse_ws(rest, false);
            let z = seq![y[0]] + c;
            assert(z[z.len() - 1] == c[c.len() - 1]);
        }
    } else {
        assert(rest.len() == 0);
        assert(!is_ws(y[0]));
        assert(collapse_ws(rest, false).len() == 0);
    }
}

proof fn lemma_trim_identity(z: Seq<char>)
    requires
        z.len() > 0 ==> !is_ws(z[0]) && !is_ws(z.last()),
    ensures
        trim(z) == z,
{
    if z.len() > 0 {
        assert(lead_ws(z) == 0);
        assert(crate::text::trail_ws(z) == 0);
        assert(z.subrange(0, z.len() as int) =~= z);
    } else {
        assert(z =~= Seq::<char>::empty());
    }
}

/// Normalizing a signature twice gives what normalizing it once gives.
pub proof fn lemma_normalize_idempotent(s: Seq<char>)
    ensures
        normalized_signature(normalized_signature(s)) == normalized_signature(s),
{
    let t = trim(s);
    lemma_trim_ends(s);
    let z = collapse_ws(t, false);
    if t.len() > 0 {
        lemma_collapse_keeps_ends(t, false);
    } else {
        assert(z.len() == 0);
    }
    lemma_trim_identity(z);
    lemma_collapse_idem(t, false);
}
} // verus!
