//! Composite keys of the store's sorted indexes, ordered lexicographically
//! by their fields.
use vstd::prelude::*;

use crate::order::{lex_lt, lemma_lex_irreflexive, lemma_lex_total, lemma_lex_transitive, lemma_lex_asymmetric, Cmp};
use crate::sorted::Keyed;

verus! {

/// A `(label, tag)` pair: one declared index.
#[derive(Debug)]
pub struct LabelTag {
    pub label: String,
    pub tag: String,
}

/// The sort key of one line of a dump: three texts, then a sequence
/// number that keeps lines with equal texts in their original order.
#[derive(Debug)]
pub struct LineKey {
    pub first: String,
    pub second: String,
    pub third: String,
    pub seq: usize,
}

/// A `(variable, property)` pair of a query row.
#[derive(Debug)]
pub struct VarProp {
    pub var: String,
    pub prop: String,
}

/// A `(label, tag, value)` triple: one index key of one node.
pub struct IndexKey {
    pub label: String,
    pub tag: String,
    pub value: String,
}

/// A posting: node `node` is listed under `(label, tag, value)`.
#[derive(Debug)]
pub struct PostingKey {
    pub label: String,
    pub tag: String,
    pub value: String,
    pub node: usize,
}

pub open spec fn lex2(a: (Seq<char>, Seq<char>), b: (Seq<char>, Seq<char>)) -> bool {
    lex_lt(a.0, b.0) || (a.0 == b.0 && lex_lt(a.1, b.1))
}

pub open spec fn lex3(a: (Seq<char>, Seq<char>, Seq<char>), b: (Seq<char>, Seq<char>, Seq<char>)) -> bool {
    lex_lt(a.0, b.0) || (a.0 == b.0 && (lex_lt(a.1, b.1) || (a.1 == b.1 && lex_lt(a.2, b.2))))
}

pub open spec fn lex4(a: (Seq<char>, Seq<char>, Seq<char>, usize), b: (Seq<char>, Seq<char>, Seq<char>, usize)) -> bool {
    lex3((a.0, a.1, a.2), (b.0, b.1, b.2)) || ((a.0, a.1, a.2) == (b.0, b.1, b.2) && a.3 < b.3)
}

pub proof fn lemma_lex3_irreflexive(a: (Seq<char>, Seq<char>, Seq<char>))
    ensures
        !lex3(a, a),
{
    lemma_lex_irreflexive(a.0);
    lemma_lex_irreflexive(a.1);
    lemma_lex_irreflexive(a.2);
}

pub proof fn lemma_lex3_transitive(a: (Seq<char>, Seq<char>, Seq<char>), b: (Seq<char>, Seq<char>, Seq<char>), c: (Seq<char>, Seq<char>, Seq<char>))
    requires
        lex3(a, b),
        lex3(b, c),
    ensures
        lex3(a, c),
{
    if lex_lt(a.0, b.0) && lex_lt(b.0, c.0) {
        lemma_lex_transitive(a.0, b.0, c.0);
    }
    if lex_lt(a.1, b.1) && lex_lt(b.1, c.1) {
        lemma_lex_transitive(a.1, b.1, c.1);
    }
    if lex_lt(a.2, b.2) && lex_lt(b.2, c.2) {
        lemma_lex_transitive(a.2, b.2, c.2);
    }
}

pub proof fn lemma_lex3_total(a: (Seq<char>, Seq<char>, Seq<char>), b: (Seq<char>, Seq<char>, Seq<char>))
    ensures
        lex3(a, b) || lex3(b, a) || a == b,
{
    lemma_lex_total(a.0, b.0);
    lemma_lex_total(a.1, b.1);
    lemma_lex_total(a.2, b.2);
}

fn compare_strings(a: &String, b: &String) -> (r: Cmp)
    ensures
        r == Cmp::Less <==> lex_lt(a@, b@),
        r == Cmp::Greater <==> lex_lt(b@, a@),
        r == Cmp::Equal <==> a@ == b@,
{
    a.compare_key(b)
}

fn compare3(a0: &String, a1: &String, a2: &String, b0: &String, b1: &String, b2: &String) -> (r: Cmp)
    ensures
        r == Cmp::Less <==> lex3((a0@, a1@, a2@), (b0@, b1@, b2@)),
        r == Cmp::Greater <==> lex3((b0@, b1@, b2@), (a0@, a1@, a2@)),
        r == Cmp::Equal <==> (a0@, a1@, a2@) == (b0@, b1@, b2@),
{
    proof {
        lemma_lex_asymmetric(a0@, b0@);
        lemma_lex_asymmetric(a1@, b1@);
        lemma_lex_asymmetric(a2@, b2@);
        lemma_lex_irreflexive(a0@);
        lemma_lex_irreflexive(a1@);
        lemma_lex_irreflexive(a2@);
    }
    match compare_strings(a0, b0) {
        Cmp::Equal => match compare_strings(a1, b1) {
            Cmp::Equal => compare_strings(a2, b2),
            c => c,
        },
        c => c,
    }
}

impl Keyed for LabelTag {
    type KeyView = (Seq<char>, Seq<char>);

    open spec fn kv(&self) -> (Seq<char>, Seq<char>) {
        (self.label@, self.tag@)
    }

    open spec fn key_lt(a: (Seq<char>, Seq<char>), b: (Seq<char>, Seq<char>)) -> bool {
        lex2(a, b)
    }

    proof fn lemma_key_irreflexive(a: (Seq<char>, Seq<char>)) {
        lemma_lex_irreflexive(a.0);
        lemma_lex_irreflexive(a.1);
    }

    proof fn lemma_key_transitive(a: (Seq<char>, Seq<char>), b: (Seq<char>, Seq<char>), c: (Seq<char>, Seq<char>)) {
        if lex_lt(a.0, b.0) && lex_lt(b.0, c.0) {
            lemma_lex_transitive(a.0, b.0, c.0);
        }
        if lex_lt(a.1, b.1) && lex_lt(b.1, c.1) {
            lemma_lex_transitive(a.1, b.1, c.1);
        }
    }

    proof fn lemma_key_total(a: (Seq<char>, Seq<char>), b: (Seq<char>, Seq<char>)) {
        lemma_lex_total(a.0, b.0);
        lemma_lex_total(a.1, b.1);
    }

    fn compare_key(&self, other: &Self) -> (r: Cmp) {
        proof {
            lemma_lex_asymmetric(self.label@, other.label@);
            lemma_lex_asymmetric(self.tag@, other.tag@);
            lemma_lex_irreflexive(self.label@);
            lemma_lex_irreflexive(self.tag@);
        }
        match compare_strings(&self.label, &other.label) {
            Cmp::Equal => compare_strings(&self.tag, &other.tag),
            c => c,
        }
    }

    fn clone_key(&self) -> (r: Self) {
        LabelTag { label: self.label.clone(), tag: self.tag.clone() }
    }
}

impl Keyed for VarProp {
    type KeyView = (Seq<char>, Seq<char>);

    open spec fn kv(&self) -> (Seq<char>, Seq<char>) {
        (self.var@, self.prop@)
    }

    open spec fn key_lt(a: (Seq<char>, Seq<char>), b: (Seq<char>, Seq<char>)) -> bool {
        lex2(a, b)
    }

    proof fn lemma_key_irreflexive(a: (Seq<char>, Seq<char>)) {
        lemma_lex_irreflexive(a.0);
        lemma_lex_irreflexive(a.1);
    }

    proof fn lemma_key_transitive(a: (Seq<char>, Seq<char>), b: (Seq<char>, Seq<char>), c: (Seq<char>, Seq<char>)) {
        if lex_lt(a.0, b.0) && lex_lt(b.0, c.0) {
            lemma_lex_transitive(a.0, b.0, c.0);
        }
        if lex_lt(a.1, b.1) && lex_lt(b.1, c.1) {
            lemma_lex_transitive(a.1, b.1, c.1);
        }
    }

    proof fn lemma_key_total(a: (Seq<char>, Seq<char>), b: (Seq<char>, Seq<char>)) {
        lemma_lex_total(a.0, b.0);
        lemma_lex_total(a.1, b.1);
    }

    fn compare_key(&self, other: &Self) -> (r: Cmp) {
        proof {
            lemma_lex_asymmetric(self.var@, other.var@);
            lemma_lex_asymmetric(self.prop@, other.prop@);
            lemma_lex_irreflexive(self.var@);
            lemma_lex_irreflexive(self.prop@);
        }
        match compare_strings(&self.var, &other.var) {
            Cmp::Equal => compare_strings(&self.prop, &other.prop),
            c => c,
        }
    }

    fn clone_key(&self) -> (r: Self) {
        VarProp { var: self.var.clone(), prop: self.prop.clone() }
    }
}

impl Keyed for IndexKey {
    type KeyView = (Seq<char>, Seq<char>, Seq<char>);

    open spec fn kv(&self) -> (Seq<char>, Seq<char>, Seq<char>) {
        (self.label@, self.tag@, self.value@)
    }

    open spec fn key_lt(a: (Seq<char>, Seq<char>, Seq<char>), b: (Seq<char>, Seq<char>, Seq<char>)) -> bool {
        lex3(a, b)
    }

    proof fn lemma_key_irreflexive(a: (Seq<char>, Seq<char>, Seq<char>)) {
        lemma_lex3_irreflexive(a);
    }

    proof fn lemma_key_transitive(a: (Seq<char>, Seq<char>, Seq<char>), b: (Seq<char>, Seq<char>, Seq<char>), c: (Seq<char>, Seq<char>, Seq<char>)) {
        lemma_lex3_transitive(a, b, c);
    }

    proof fn lemma_key_total(a: (Seq<char>, Seq<char>, Seq<char>), b: (Seq<char>, Seq<char>, Seq<char>)) {
        lemma_lex3_total(a, b);
    }

    fn compare_key(&self, other: &Self) -> (r: Cmp) {
        compare3(&self.label, &self.tag, &self.value, &other.label, &other.tag, &other.value)
    }

    fn clone_key(&self) -> (r: Self) {
        IndexKey { label: self.label.clone(), tag: self.tag.clone(), value: self.value.clone() }
    }
}

impl Keyed for PostingKey {
    type KeyView = (Seq<char>, Seq<char>, Seq<char>, usize);

    open spec fn kv(&self) -> (Seq<char>, Seq<char>, Seq<char>, usize) {
        (self.label@, self.tag@, self.value@, self.node)
    }

    open spec fn key_lt(a: (Seq<char>, Seq<char>, Seq<char>, usize), b: (Seq<char>, Seq<char>, Seq<char>, usize)) -> bool {
        lex4(a, b)
    }

    proof fn lemma_key_irreflexive(a: (Seq<char>, Seq<char>, Seq<char>, usize)) {
        lemma_lex3_irreflexive((a.0, a.1, a.2));
    }

    proof fn lemma_key_transitive(a: (Seq<char>, Seq<char>, Seq<char>, usize), b: (Seq<char>, Seq<char>, Seq<char>, usize), c: (Seq<char>, Seq<char>, Seq<char>, usize)) {
        let a3 = (a.0, a.1, a.2);
        let b3 = (b.0, b.1, b.2);
        let c3 = (c.0, c.1, c.2);
        if lex3(a3, b3) && lex3(b3, c3) {
            lemma_lex3_transitive(a3, b3, c3);
        }
    }

    proof fn lemma_key_total(a: (Seq<char>, Seq<char>, Seq<char>, usize), b: (Seq<char>, Seq<char>, Seq<char>, usize)) {
        lemma_lex3_total((a.0, a.1, a.2), (b.0, b.1, b.2));
    }

    fn compare_key(&self, other: &Self) -> (r: Cmp) {
        proof {
            lemma_lex3_irreflexive((self.label@, self.tag@, self.value@));
            lemma_lex3_total((self.label@, self.tag@, self.value@), (other.label@, other.tag@, other.value@));
            if lex3((self.label@, self.tag@, self.value@), (other.label@, other.tag@, other.value@))
                && lex3((other.label@, other.tag@, other.value@), (self.label@, self.tag@, self.value@)) {
                lemma_lex3_transitive((self.label@, self.tag@, self.value@), (other.label@, other.tag@, other.value@), (self.label@, self.tag@, self.value@));
            }
        }
        match compare3(&self.label, &self.tag, &self.value, &other.label, &other.tag, &other.value) {
            Cmp::Equal => {
                if self.node < other.node {
                    Cmp::Less
                } else if other.node < self.node {
                    Cmp::Greater
                } else {
                    Cmp::Equal
                }
            },
            c => c,
        }
    }

    fn clone_key(&self) -> (r: Self) {
        PostingKey { label: self.label.clone(), tag: self.tag.clone(), value: self.value.clone(), node: self.node }
    }
}

impl Keyed for LineKey {
    type KeyView = (Seq<char>, Seq<char>, Seq<char>, usize);

    open spec fn kv(&self) -> (Seq<char>, Seq<char>, Seq<char>, usize) {
        (self.first@, self.second@, self.third@, self.seq)
    }

    open spec fn key_lt(a: (Seq<char>, Seq<char>, Seq<char>, usize), b: (Seq<char>, Seq<char>, Seq<char>, usize)) -> bool {
        lex4(a, b)
    }

    proof fn lemma_key_irreflexive(a: (Seq<char>, Seq<char>, Seq<char>, usize)) {
        lemma_lex3_irreflexive((a.0, a.1, a.2));
    }

    proof fn lemma_key_transitive(a: (Seq<char>, Seq<char>, Seq<char>, usize), b: (Seq<char>, Seq<char>, Seq<char>, usize), c: (Seq<char>, Seq<char>, Seq<char>, usize)) {
        let a3 = (a.0, a.1, a.2);
        let b3 = (b.0, b.1, b.2);
        let c3 = (c.0, c.1, c.2);
        if lex3(a3, b3) && lex3(b3, c3) {
            lemma_lex3_transitive(a3, b3, c3);
        }
    }

    proof fn lemma_key_total(a: (Seq<char>, Seq<char>, Seq<char>, usize), b: (Seq<char>, Seq<char>, Seq<char>, usize)) {
        lemma_lex3_total((a.0, a.1, a.2), (b.0, b.1, b.2));
    }

    fn compare_key(&self, other: &Self) -> (r: Cmp) {
        proof {
            lemma_lex3_irreflexive((self.first@, self.second@, self.third@));
            lemma_lex3_total((self.first@, self.second@, self.third@), (other.first@, other.second@, other.third@));
            if lex3((self.first@, self.second@, self.third@), (other.first@, other.second@, other.third@))
                && lex3((other.first@, other.second@, other.third@), (self.first@, self.second@, self.third@)) {
                lemma_lex3_transitive((self.first@, self.second@, self.third@), (other.first@, other.second@, other.third@), (self.first@, self.second@, self.third@));
            }
        }
        match compare3(&self.first, &self.second, &self.third, &other.first, &other.second, &other.third) {
            Cmp::Equal => {
                if self.seq < other.seq {
                    Cmp::Less
                } else if other.seq < self.seq {
                    Cmp::Greater
                } else {
                    Cmp::Equal
                }
            },
            c => c,
        }
    }

    fn clone_key(&self) -> (r: Self) {
        LineKey { first: self.first.clone(), second: self.second.clone(), third: self.third.clone(), seq: self.seq }
    }
}

} // verus!
