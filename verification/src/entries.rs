//! Set relations between two `entries_normalized` JSON arrays: the
//! `entries_subset`, `entries_jaccard` and `overlap_verdict` functions.
use vstd::prelude::*;

use crate::elems::{is_subset, kset, kseq, overlap_counts};

verus! {

/// What a JSON text yields when read as an array of strings: `None` when
/// it is not a JSON array whose elements are all strings.
pub uninterp spec fn json_string_array(text: Seq<char>) -> Option<Seq<Seq<char>>>;

/// What a JSON text yields when read as an array of integers that fit
/// `i64`: `None` when it is not such an array.
pub uninterp spec fn json_int_array(text: Seq<char>) -> Option<Seq<i64>>;

/// Reads `text` as a JSON array of strings.
///
/// Calls `serde_json::from_str::<Vec<String>>`; the contract claims only
/// that the result is the one named by `json_string_array` for this text.
#[verifier::external_body]
fn parse_string_array(text: &str) -> (r: Option<Vec<String>>)
    ensures
        match r {
            Some(v) => json_string_array(text@) == Some(kseq(v@)),
            None => json_string_array(text@) == None::<Seq<Seq<char>>>,
        },
{
    serde_json::from_str::<Vec<String>>(text).ok()
}

/// Reads `text` as a JSON array of `i64` integers.
///
/// Calls `serde_json::from_str::<Vec<i64>>`; the contract claims only that
/// the result is the one named by `json_int_array` for this text.
#[verifier::external_body]
fn parse_int_array(text: &str) -> (r: Option<Vec<i64>>)
    ensures
        match r {
            Some(v) => json_int_array(text@) == Some(v@),
            None => json_int_array(text@) == None::<Seq<i64>>,
        },
{
    serde_json::from_str::<Vec<i64>>(text).ok()
}

/// Whether a JSON text is an array, whatever its elements.
pub uninterp spec fn json_array_text(text: Seq<char>) -> bool;

/// Whether `text` reads as a JSON array.
///
/// Calls `serde_json::from_str::<Vec<serde_json::Value>>`; the contract
/// claims only that the result is the one named by `json_array_text` for
/// this text.
#[verifier::external_body]
pub(crate) fn is_json_array(text: &str) -> (r: bool)
    ensures
        r == json_array_text(text@),
{
    serde_json::from_str::<Vec<serde_json::Value>>(text).is_ok()
}

/// The element set of an `entries_normalized` value.
pub enum NormalizedEntries {
    Strs(Vec<String>),
    Ints(Vec<i64>),
    /// The empty array `[]`.
    Empty,
    /// Not JSON, not an array, or elements of mixed or unsupported types.
    MixedOrInvalid,
}

/// The abstract content of [`NormalizedEntries`].
pub enum EntrySet {
    Strs(Set<Seq<char>>),
    Ints(Set<i64>),
    Empty,
    Invalid,
}

impl NormalizedEntries {
    pub open spec fn model(&self) -> EntrySet {
        match self {
            NormalizedEntries::Strs(v) => EntrySet::Strs(kset(v@)),
            NormalizedEntries::Ints(v) => EntrySet::Ints(kset(v@)),
            NormalizedEntries::Empty => EntrySet::Empty,
            NormalizedEntries::MixedOrInvalid => EntrySet::Invalid,
        }
    }
}

/// The entry set described by the two typed readings of one JSON text.
/// A text that reads as an array of strings is a string set (or `Empty`
/// for `[]`); otherwise one that reads as an array of integers is an
/// integer set; anything else is invalid.
pub open spec fn classified(strs: Option<Seq<Seq<char>>>, ints: Option<Seq<i64>>) -> EntrySet {
    match strs {
        Some(s) => if s.len() == 0 {
            EntrySet::Empty
        } else {
            EntrySet::Strs(s.to_set())
        },
        None => match ints {
            Some(v) => if v.len() == 0 {
                EntrySet::Empty
            } else {
                EntrySet::Ints(v.to_set())
            },
            None => EntrySet::Invalid,
        },
    }
}

/// The entry set of an `entries_normalized` JSON text.
pub open spec fn entries_of(text: Seq<char>) -> EntrySet {
    classified(json_string_array(text), json_int_array(text))
}

/// Classifies the two typed readings of one JSON text.
pub fn classify_entries(strs: Option<Vec<String>>, ints: Option<Vec<i64>>) -> (r: NormalizedEntries)
    ensures
        r.model() == classified(
            match strs {
                Some(v) => Some(kseq(v@)),
                None => None,
            },
            match ints {
                Some(v) => Some(v@),
                None => None,
            },
        ),
{
    match strs {
        Some(v) => {
            if v.len() == 0 {
                NormalizedEntries::Empty
            } else {
                NormalizedEntries::Strs(v)
            }
        },
        None => match ints {
            Some(v) => {
                if v.len() == 0 {
                    NormalizedEntries::Empty
                } else {
                    proof {
                        assert(kseq(v@) =~= v@);
                    }
                    NormalizedEntries::Ints(v)
                }
            },
            None => NormalizedEntries::MixedOrInvalid,
        },
    }
}

/// Parses an `entries_normalized` JSON text into its element set.
pub fn parse_entries_normalized(text: &str) -> (r: NormalizedEntries)
    ensures
        r.model() == entries_of(text@),
{
    let strs = parse_string_array(text);
    let ints = parse_int_array(text);
    classify_entries(strs, ints)
}

/// `a ⊆ b` on entry sets: the empty set is a subset of anything; invalid
/// input and mismatched element types are never subsets.
pub open spec fn subset_model(a: EntrySet, b: EntrySet) -> bool {
    match (a, b) {
        (EntrySet::Empty, _) => true,
        (EntrySet::Invalid, _) => false,
        (_, EntrySet::Invalid) => false,
        (EntrySet::Strs(x), EntrySet::Strs(y)) => x.subset_of(y),
        (EntrySet::Ints(x), EntrySet::Ints(y)) => x.subset_of(y),
        _ => false,
    }
}

/// `(|a ∩ b|, |a ∪ b|)` when both sides are string sets or both are
/// integer sets; `(0, 0)` otherwise: mismatched, empty or invalid sides
/// share no element, and their jaccard ratio is 0.
pub open spec fn overlap_model(a: EntrySet, b: EntrySet) -> (nat, nat) {
    match (a, b) {
        (EntrySet::Strs(x), EntrySet::Strs(y)) => (x.intersect(y).len(), x.union(y).len()),
        (EntrySet::Ints(x), EntrySet::Ints(y)) => (x.intersect(y).len(), x.union(y).len()),
        _ => (0, 0),
    }
}

/// Whether the jaccard ratio `|a ∩ b| / |a ∪ b|` is at least one half
/// (a ratio of 0 is taken for an empty union).
pub open spec fn jaccard_at_least_half(counts: (nat, nat)) -> bool {
    counts.1 > 0 && 2 * counts.0 >= counts.1
}

pub fn subset_of_entries(a: &NormalizedEntries, b: &NormalizedEntries) -> (r: bool)
    ensures
        r == subset_model(a.model(), b.model()),
{
    match (a, b) {
        (NormalizedEntries::Empty, _) => true,
        (NormalizedEntries::MixedOrInvalid, _) | (_, NormalizedEntries::MixedOrInvalid) => false,
        (NormalizedEntries::Strs(x), NormalizedEntries::Strs(y)) => is_subset(x, y),
        (NormalizedEntries::Ints(x), NormalizedEntries::Ints(y)) => is_subset(x, y),
        _ => false,
    }
}

pub fn overlap_of_entries(a: &NormalizedEntries, b: &NormalizedEntries) -> (r: (usize, usize))
    ensures
        r.0 == overlap_model(a.model(), b.model()).0,
        r.1 == overlap_model(a.model(), b.model()).1,
        r.0 <= r.1,
{
    match (a, b) {
        (NormalizedEntries::Strs(x), NormalizedEntries::Strs(y)) => overlap_counts(x, y),
        (NormalizedEntries::Ints(x), NormalizedEntries::Ints(y)) => overlap_counts(x, y),
        _ => (0, 0),
    }
}

/// `entries_subset(a, b)`: true iff every element of JSON array `a` is in
/// JSON array `b`.
pub fn entries_subset_impl(a_json: &str, b_json: &str) -> (r: bool)
    ensures
        r == subset_model(entries_of(a_json@), entries_of(b_json@)),
{
    let a = parse_entries_normalized(a_json);
    let b = parse_entries_normalized(b_json);
    subset_of_entries(&a, &b)
}

/// `entries_jaccard(a, b)` as the pair `(|a ∩ b|, |a ∪ b|)`; the ratio is
/// `0.0` when the union is empty.
pub fn entries_jaccard_counts(a_json: &str, b_json: &str) -> (r: (usize, usize))
    ensures
        r.0 == overlap_model(entries_of(a_json@), entries_of(b_json@)).0,
        r.1 == overlap_model(entries_of(a_json@), entries_of(b_json@)).1,
{
    let a = parse_entries_normalized(a_json);
    let b = parse_entries_normalized(b_json);
    overlap_of_entries(&a, &b)
}

/// The four verdicts of `overlap_verdict`.
pub open spec fn verdict_model(hash_equal: bool, a: EntrySet, b: EntrySet) -> Seq<char> {
    if hash_equal {
        "CONST_TABLE_DUPLICATE"@
    } else if subset_model(a, b) || subset_model(b, a) {
        "CONST_TABLE_SUBSET"@
    } else if jaccard_at_least_half(overlap_model(a, b)) {
        "CONST_TABLE_INTERSECTION_HIGH"@
    } else {
        "CONST_TABLE_NONE"@
    }
}

/// `overlap_verdict` decided on already-parsed entry sets.
pub fn verdict_of_entries(hash_equal: bool, a: &NormalizedEntries, b: &NormalizedEntries) -> (r: &'static str)
    ensures
        r@ == verdict_model(hash_equal, a.model(), b.model()),
{
    if hash_equal {
        return "CONST_TABLE_DUPLICATE";
    }
    if subset_of_entries(a, b) || subset_of_entries(b, a) {
        return "CONST_TABLE_SUBSET";
    }
    let (inter, union) = overlap_of_entries(a, b);
    if union > 0 && inter >= union - inter {
        return "CONST_TABLE_INTERSECTION_HIGH";
    }
    "CONST_TABLE_NONE"
}

/// `overlap_verdict(a_norm, b_norm, a_hash, b_hash)`: equal hashes are a
/// duplicate; otherwise a subset either way; otherwise a jaccard ratio of
/// at least one half; otherwise none.
pub fn overlap_verdict_impl(a_norm: &str, b_norm: &str, a_hash: &str, b_hash: &str) -> (r: &'static str)
    ensures
        r@ == verdict_model(a_hash@ == b_hash@, entries_of(a_norm@), entries_of(b_norm@)),
{
    let hash_equal = crate::text::str_eq(a_hash, b_hash);
    let a = parse_entries_normalized(a_norm);
    let b = parse_entries_normalized(b_norm);
    verdict_of_entries(hash_equal, &a, &b)
}

} // verus!

verus! {

/// The empty set is a subset of anything.
pub proof fn lemma_empty_is_subset_of_anything(a: EntrySet, b: EntrySet)
    requires
        a is Empty,
    ensures
        subset_model(a, b),
{
}

/// A valid entry set is a subset of itself, so equal sets are subsets of
/// each other.
pub proof fn lemma_subset_reflexive(a: EntrySet)
    requires
        !(a is Invalid),
    ensures
        subset_model(a, a),
{
}

/// The overlap counts do not depend on the order of the pair.
pub proof fn lemma_overlap_symmetric(a: EntrySet, b: EntrySet)
    ensures
        overlap_model(a, b) == overlap_model(b, a),
{
    match (a, b) {
        (EntrySet::Strs(x), EntrySet::Strs(y)) => {
            assert(x.intersect(y) =~= y.intersect(x));
            assert(x.union(y) =~= y.union(x));
        },
        (EntrySet::Ints(x), EntrySet::Ints(y)) => {
            assert(x.intersect(y) =~= y.intersect(x));
            assert(x.union(y) =~= y.union(x));
        },
        _ => {},
    }
}

/// The verdict is symmetric on the pair: swapping the two tables (with
/// their hashes) gives the same verdict.
pub proof fn lemma_verdict_symmetric(a_norm: Seq<char>, b_norm: Seq<char>, a_hash: Seq<char>, b_hash: Seq<char>)
    ensures
        verdict_model(a_hash == b_hash, entries_of(a_norm), entries_of(b_norm))
            == verdict_model(b_hash == a_hash, entries_of(b_norm), entries_of(a_norm)),
{
    lemma_overlap_symmetric(entries_of(a_norm), entries_of(b_norm));
}

/// Equal hashes always give a duplicate, whatever the entries.
pub proof fn lemma_equal_hashes_are_duplicates(a_norm: Seq<char>, b_norm: Seq<char>, hash: Seq<char>)
    ensures
        verdict_model(hash == hash, entries_of(a_norm), entries_of(b_norm)) == "CONST_TABLE_DUPLICATE"@,
{
}

} // verus!
