//! Nodes, edges, property values and warnings.
use vstd::prelude::*;

use crate::sorted::{Keyed, SortedMap};
use crate::text::push_char;

verus! {

/// A property value.
#[derive(Debug)]
pub enum PropValue {
    Str(String),
    Int(i64),
    /// A floating-point value, held as its IEEE-754 bit pattern together
    /// with its `{:?}` rendering, its JSON number rendering (`None` for a
    /// value JSON cannot hold: NaN or an infinity) and its fixed-point
    /// rendering `{:020.10}` (the text that sorts and groups it).
    Float { bits: u64, text: String, json: Option<String>, fixed: String },
    Bool(bool),
    Null,
}

/// The abstract value of a [`PropValue`].
pub enum PropView {
    Str(Seq<char>),
    Int(i64),
    Float(u64, Seq<char>, Option<Seq<char>>, Seq<char>),
    Bool(bool),
    Null,
}

impl PropValue {
    pub open spec fn pv(&self) -> PropView {
        match self {
            PropValue::Str(s) => PropView::Str(s@),
            PropValue::Int(n) => PropView::Int(*n),
            PropValue::Float { bits, text, json, fixed } => PropView::Float(*bits, text@, match json {
                Some(j) => Some(j@),
                None => None,
            }, fixed@),
            PropValue::Bool(b) => PropView::Bool(*b),
            PropValue::Null => PropView::Null,
        }
    }

    /// Whether two values are the same.
    pub fn same_as(&self, other: &PropValue) -> (r: bool)
        ensures
            r == (self.pv() == other.pv()),
    {
        match (self, other) {
            (PropValue::Str(a), PropValue::Str(b)) => *a == *b,
            (PropValue::Int(a), PropValue::Int(b)) => *a == *b,
            (PropValue::Float { bits: a, text: ta, json: ja, fixed: fa }, PropValue::Float { bits: b, text: tb, json: jb, fixed: fb }) => {
                *a == *b && *ta == *tb && *fa == *fb && match (ja, jb) {
                    (Some(x), Some(y)) => *x == *y,
                    (None, None) => true,
                    _ => false,
                }
            },
            (PropValue::Bool(a), PropValue::Bool(b)) => *a == *b,
            (PropValue::Null, PropValue::Null) => true,
            _ => false,
        }
    }

    /// A copy of the value.
    pub fn duplicate(&self) -> (r: PropValue)
        ensures
            r.pv() == self.pv(),
    {
        match self {
            PropValue::Str(s) => PropValue::Str(s.clone()),
            PropValue::Int(n) => PropValue::Int(*n),
            PropValue::Float { bits, text, json, fixed } => PropValue::Float {
                bits: *bits,
                text: text.clone(),
                fixed: fixed.clone(),
                json: match json {
                    Some(j) => Some(j.clone()),
                    None => None,
                },
            },
            PropValue::Bool(b) => PropValue::Bool(*b),
            PropValue::Null => PropValue::Null,
        }
    }

    /// The string held, if the value is a string.
    pub fn as_str(&self) -> (r: Option<&str>)
        ensures
            match self.pv() {
                PropView::Str(s) => r is Some && r->0@ == s,
                _ => r is None,
            },
    {
        match self {
            PropValue::Str(s) => Some(s.as_str()),
            _ => None,
        }
    }
}

/// The decimal digit for `d < 10`.
pub open spec fn digit_char(d: nat) -> char {
    if d == 0 { '0' } else if d == 1 { '1' } else if d == 2 { '2' } else if d == 3 { '3' }
    else if d == 4 { '4' } else if d == 5 { '5' } else if d == 6 { '6' } else if d == 7 { '7' }
    else if d == 8 { '8' } else { '9' }
}

/// The decimal digits of `n`, most significant first.
pub open spec fn decimal(n: nat) -> Seq<char>
    decreases n,
{
    if n < 10 {
        seq![digit_char(n)]
    } else {
        decimal(n / 10) + seq![digit_char(n % 10)]
    }
}

/// The decimal rendering of a signed integer (as `i64::to_string`).
pub open spec fn int_text(n: int) -> Seq<char> {
    if n < 0 {
        seq!['-'] + decimal((-n) as nat)
    } else {
        decimal(n as nat)
    }
}

fn digit(d: u64) -> (c: char)
    requires
        d < 10,
    ensures
        c == digit_char(d as nat),
{
    if d == 0 { '0' } else if d == 1 { '1' } else if d == 2 { '2' } else if d == 3 { '3' }
    else if d == 4 { '4' } else if d == 5 { '5' } else if d == 6 { '6' } else if d == 7 { '7' }
    else if d == 8 { '8' } else { '9' }
}

/// Appends the decimal digits of `n`.
pub fn push_decimal(out: &mut String, n: u64)
    ensures
        final(out)@ == old(out)@ + decimal(n as nat),
    decreases n,
{
    if n < 10 {
        push_char(out, digit(n));
    } else {
        push_decimal(out, n / 10);
        push_char(out, digit(n % 10));
        proof {
            assert(decimal(n as nat) == decimal((n / 10) as nat) + seq![digit_char((n % 10) as nat)]);
        }
    }
}

/// Appends the decimal rendering of `n`.
pub fn push_int(out: &mut String, n: i64)
    ensures
        final(out)@ == old(out)@ + int_text(n as int),
{
    if n < 0 {
        push_char(out, '-');
        let m: u64 = ((-(n + 1)) as u64) + 1;
        push_decimal(out, m);
    } else {
        push_decimal(out, n as u64);
    }
}

/// The index key of a property value: strings as themselves, integers in
/// decimal, booleans as `true` / `false`; floats and nulls have none.
pub open spec fn index_key_spec(v: PropView) -> Option<Seq<char>> {
    match v {
        PropView::Str(s) => Some(s),
        PropView::Int(n) => Some(int_text(n as int)),
        PropView::Bool(b) => Some(if b { "true"@ } else { "false"@ }),
        _ => None,
    }
}

/// The index key of a property value, if it has one.
pub fn index_key_of(v: &PropValue) -> (r: Option<String>)
    ensures
        match r {
            Some(s) => index_key_spec(v.pv()) == Some(s@),
            None => index_key_spec(v.pv()) == None::<Seq<char>>,
        },
{
    match v {
        PropValue::Str(s) => Some(s.clone()),
        PropValue::Int(n) => {
            let mut out = String::new();
            push_int(&mut out, *n);
            Some(out)
        },
        PropValue::Bool(b) => Some(if *b { "true".to_owned() } else { "false".to_owned() }),
        _ => None,
    }
}

/// Properties, keyed by name.
pub type Props = SortedMap<String, PropValue>;

/// The abstract content of a property map: its entries in key order.
pub open spec fn props_view(p: Props) -> Seq<(Seq<char>, PropView)> {
    p.entries@.map_values(|e: (String, PropValue)| (e.0@, e.1.pv()))
}

/// The value of property `k`, if present.
pub open spec fn prop_of(p: Props, k: Seq<char>) -> Option<PropView> {
    match p.lookup(k) {
        Some(v) => Some(v.pv()),
        None => None,
    }
}

/// Looks up a property by name.
pub fn get_prop<'a>(p: &'a Props, k: &str) -> (r: Option<&'a PropValue>)
    requires
        p.wf(),
    ensures
        match r {
            Some(v) => prop_of(*p, k@) == Some(v.pv()),
            None => prop_of(*p, k@) == None::<PropView>,
        },
{
    let key = k.to_owned();
    p.get(&key)
}

/// Whether two property maps hold the same entries.
pub fn props_same(a: &Props, b: &Props) -> (r: bool)
    ensures
        r == (props_view(*a) == props_view(*b)),
{
    if a.entries.len() != b.entries.len() {
        proof {
            assert(props_view(*a).len() != props_view(*b).len());
        }
        return false;
    }
    let mut i: usize = 0;
    while i < a.entries.len()
        invariant
            i <= a.entries@.len(),
            a.entries@.len() == b.entries@.len(),
            forall|k: int| 0 <= k < i ==> #[trigger] props_view(*a)[k] == props_view(*b)[k],
        decreases a.entries@.len() - i,
    {
        if !(a.entries[i].0 == b.entries[i].0) || !a.entries[i].1.same_as(&b.entries[i].1) {
            proof {
                assert(props_view(*a)[i as int] != props_view(*b)[i as int]);
            }
            return false;
        }
        i = i + 1;
    }
    proof {
        assert(props_view(*a) =~= props_view(*b));
    }
    true
}

/// A copy of a property map.
pub fn props_duplicate(p: &Props) -> (r: Props)
    ensures
        props_view(r) == props_view(*p),
        p.wf() ==> r.wf(),
        forall|i: int| 0 <= i < p.entries@.len() ==> #[trigger] r.entries@[i].0@ == p.entries@[i].0@,
        r.entries@.len() == p.entries@.len(),
{
    let mut out: Vec<(String, PropValue)> = Vec::new();
    let mut i: usize = 0;
    while i < p.entries.len()
        invariant
            i <= p.entries@.len(),
            out@.len() == i,
            forall|k: int| 0 <= k < i ==> #[trigger] out@[k].0@ == p.entries@[k].0@ && out@[k].1.pv() == p.entries@[k].1.pv(),
        decreases p.entries@.len() - i,
    {
        let k = p.entries[i].0.clone();
        let v = p.entries[i].1.duplicate();
        out.push((k, v));
        i = i + 1;
    }
    let r = SortedMap { entries: out };
    proof {
        assert(props_view(r) =~= props_view(*p));
        if p.wf() {
            assert forall|x: int, y: int| 0 <= x < y < r.entries@.len() implies #[trigger] String::key_lt(
                r.entries@[x].0.kv(),
                r.entries@[y].0.kv(),
            ) by {
                assert(String::key_lt(p.entries@[x].0.kv(), p.entries@[y].0.kv()));
            }
        }
    }
    r
}

/// A graph node.
#[derive(Debug)]
pub struct Node {
    pub id: String,
    pub label: String,
    pub props: Props,
}

/// A graph edge from `src` to `dst` (node ids).
#[derive(Debug)]
pub struct Edge {
    pub src: String,
    pub dst: String,
    pub label: String,
    pub props: Props,
}

impl Node {
    /// A node with no properties.
    pub fn new(id: &str, label: &str) -> (n: Node)
        ensures
            n.id@ == id@,
            n.label@ == label@,
            n.props.wf(),
            n.props.entries@.len() == 0,
    {
        Node { id: id.to_owned(), label: label.to_owned(), props: SortedMap::new() }
    }

    /// The node with property `k` set to `v`.
    pub fn with_prop(self, k: &str, v: PropValue) -> (n: Node)
        requires
            self.props.wf(),
        ensures
            n.id == self.id,
            n.label == self.label,
            n.props.wf(),
            prop_of(n.props, k@) == Some(v.pv()),
            forall|q: Seq<char>| q != k@ ==> #[trigger] prop_of(n.props, q) == prop_of(self.props, q),
    {
        let mut props = self.props;
        props.insert(k.to_owned(), v);
        Node { id: self.id, label: self.label, props }
    }

    /// Whether two nodes are the same: id, label and properties.
    pub open spec fn same_node(&self, other: &Node) -> bool {
        self.id@ == other.id@ && self.label@ == other.label@ && props_view(self.props) == props_view(other.props)
    }

    pub fn same_as(&self, other: &Node) -> (r: bool)
        ensures
            r == self.same_node(other),
    {
        crate::text::str_eq(self.id.as_str(), other.id.as_str()) && crate::text::str_eq(self.label.as_str(), other.label.as_str()) && props_same(&self.props, &other.props)
    }

    /// A copy of the node.
    pub fn duplicate(&self) -> (r: Node)
        requires
            self.props.wf(),
        ensures
            r.same_node(self),
            r.props.wf(),
            forall|q: Seq<char>| #[trigger] prop_of(r.props, q) == prop_of(self.props, q),
    {
        let props = props_duplicate(&self.props);
        let r = Node { id: self.id.clone(), label: self.label.clone(), props };
        proof {
            assert forall|q: Seq<char>| #[trigger] prop_of(r.props, q) == prop_of(self.props, q) by {
                if self.props.has(q) {
                    let j = choose|j: int| 0 <= j < self.props.entries@.len() && #[trigger] self.props.entries@[j].0.kv() == q;
                    assert(r.props.entries@[j].0@ == q);
                    assert(props_view(r.props)[j] == props_view(self.props)[j]);
                    self.props.lemma_lookup_at(j);
                    r.props.lemma_lookup_at(j);
                }
                if r.props.has(q) {
                    let j = choose|j: int| 0 <= j < r.props.entries@.len() && #[trigger] r.props.entries@[j].0.kv() == q;
                    assert(self.props.entries@[j].0@ == q);
                    assert(props_view(r.props)[j] == props_view(self.props)[j]);
                    self.props.lemma_lookup_at(j);
                    r.props.lemma_lookup_at(j);
                }
            }
        }
        r
    }
}

impl Edge {
    /// An edge with no properties.
    pub fn new(src: &str, dst: &str, label: &str) -> (e: Edge)
        ensures
            e.src@ == src@,
            e.dst@ == dst@,
            e.label@ == label@,
            e.props.wf(),
            e.props.entries@.len() == 0,
    {
        Edge { src: src.to_owned(), dst: dst.to_owned(), label: label.to_owned(), props: SortedMap::new() }
    }

    /// A copy of the edge.
    pub fn duplicate(&self) -> (r: Edge)
        ensures
            r.src@ == self.src@,
            r.dst@ == self.dst@,
            r.label@ == self.label@,
            props_view(r.props) == props_view(self.props),
            self.props.wf() ==> r.props.wf(),
    {
        Edge {
            src: self.src.clone(),
            dst: self.dst.clone(),
            label: self.label.clone(),
            props: props_duplicate(&self.props),
        }
    }
}

/// The kind of a diagnostic.
#[derive(Clone, Copy, Debug, PartialEq, Eq, Structural)]
pub enum WarningKind {
    IdentityContention,
    EmptyResult,
    UnknownLabel,
    UnknownEdgeLabel,
}

/// A diagnostic produced while ingesting or querying.
#[derive(Debug)]
pub struct Warning {
    pub kind: WarningKind,
    pub message: String,
    pub suggestion: Option<String>,
}

impl Warning {
    /// A copy of the warning.
    pub fn duplicate(&self) -> (r: Warning)
        ensures
            r.kind == self.kind,
            r.message@ == self.message@,
            r.suggestion is Some == self.suggestion is Some,
            r.suggestion is Some ==> r.suggestion->0@ == self.suggestion->0@,
    {
        Warning {
            kind: self.kind,
            message: self.message.clone(),
            suggestion: match &self.suggestion {
                Some(s) => Some(s.clone()),
                None => None,
            },
        }
    }
}

} // verus!
