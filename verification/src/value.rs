//! Values of the query evaluator: what a variable is bound to, result rows,
//! and how values compare, equal one another and sort.
use vstd::prelude::*;
use vstd::arithmetic::power2::{lemma2_to64, lemma_pow2_adds, lemma_pow2_pos, lemma_pow2_strictly_increases, lemma_pow2_unfold, pow2};

use crate::dump::join_with;
use crate::fact::{decimal, props_view, push_decimal, Node, PropValue, PropView, Props};
use crate::order::{compare_chars, lex_lt, Cmp};
use crate::query::CompareOp;
use crate::sorted::SortedMap;
use crate::text::{chars_of, push_char, push_str, str_eq};

verus! {

/// A value in a result row: one property value, or a list of them (what a
/// `collect` aggregation yields).
#[derive(Debug)]
pub enum RowValue {
    Scalar(PropValue),
    List(Vec<PropValue>),
}

/// The abstract value of a [`RowValue`].
pub enum RowView {
    Scalar(PropView),
    List(Seq<PropView>),
}

/// The abstract values of a sequence of property values.
pub open spec fn pvs(v: Seq<PropValue>) -> Seq<PropView> {
    v.map_values(|p: PropValue| p.pv())
}

impl RowValue {
    pub open spec fn rv(&self) -> RowView {
        match self {
            RowValue::Scalar(p) => RowView::Scalar(p.pv()),
            RowValue::List(v) => RowView::List(pvs(v@)),
        }
    }

    /// A copy of the value.
    pub fn duplicate(&self) -> (r: RowValue)
        ensures
            r.rv() == self.rv(),
    {
        match self {
            RowValue::Scalar(p) => RowValue::Scalar(p.duplicate()),
            RowValue::List(v) => RowValue::List(duplicate_values(v)),
        }
    }
}

/// A copy of a list of property values.
pub fn duplicate_values(v: &Vec<PropValue>) -> (r: Vec<PropValue>)
    ensures
        pvs(r@) == pvs(v@),
{
    let mut out: Vec<PropValue> = Vec::new();
    let mut i: usize = 0;
    while i < v.len()
        invariant
            i <= v@.len(),
            pvs(out@) == pvs(v@.take(i as int)),
        decreases v@.len() - i,
    {
        out.push(v[i].duplicate());
        proof {
            assert(pvs(v@.take(i + 1)) =~= pvs(v@.take(i as int)).push(v@[i as int].pv()));
            assert(pvs(out@) =~= pvs(v@.take(i + 1)));
        }
        i = i + 1;
    }
    proof {
        assert(v@.take(i as int) =~= v@);
    }
    out
}

/// What a query variable is bound to.
#[derive(Debug)]
pub enum Binding {
    /// A node, by index.
    NodeRef(usize),
    /// An edge, by index.
    EdgeRef(usize),
    /// A value (from `UNWIND` or a `WITH` projection).
    Value(RowValue),
    /// The null an unmatched `OPTIONAL MATCH` leaves.
    Null,
}

/// The abstract value of a [`Binding`].
pub enum BindView {
    Node(usize),
    Edge(usize),
    Val(RowView),
    Null,
}

impl Binding {
    pub open spec fn bv(&self) -> BindView {
        match self {
            Binding::NodeRef(i) => BindView::Node(*i),
            Binding::EdgeRef(j) => BindView::Edge(*j),
            Binding::Value(v) => BindView::Val(v.rv()),
            Binding::Null => BindView::Null,
        }
    }

    /// A copy of the binding.
    pub fn duplicate(&self) -> (r: Binding)
        ensures
            r.bv() == self.bv(),
    {
        match self {
            Binding::NodeRef(i) => Binding::NodeRef(*i),
            Binding::EdgeRef(j) => Binding::EdgeRef(*j),
            Binding::Value(v) => Binding::Value(v.duplicate()),
            Binding::Null => Binding::Null,
        }
    }
}

/// One row of bindings, by variable name.
pub type Bindings = SortedMap<String, Binding>;

/// The abstract content of a row of bindings.
pub type Env = Map<Seq<char>, BindView>;

/// The abstract content of `b`.
pub open spec fn env_of(b: Bindings) -> Env {
    Map::new(|k: Seq<char>| b.has(k), |k: Seq<char>| b.lookup(k).unwrap().bv())
}

/// One result row, by column name.
pub type Row = SortedMap<String, RowValue>;

/// The abstract content of a result row: its columns in name order.
pub open spec fn row_view(r: Row) -> Seq<(Seq<char>, RowView)> {
    r.entries@.map_values(|e: (String, RowValue)| (e.0@, e.1.rv()))
}

// ---------------------------------------------------------------------
// Floating-point values, read off their IEEE-754 bit patterns
// ---------------------------------------------------------------------

/// The bit pattern with its sign bit cleared.
pub open spec fn float_mag(b: u64) -> int {
    (b as int) % 0x8000_0000_0000_0000
}

/// Whether the bit pattern is a NaN: all exponent bits set and a non-zero
/// fraction.
pub open spec fn is_nan_bits(b: u64) -> bool {
    float_mag(b) > 0x7ff0_0000_0000_0000
}

/// An integer that orders non-NaN doubles as their values do: the
/// magnitude bits, negated for a negative sign (both zeros map to 0).
pub open spec fn float_key(b: u64) -> int {
    if b >= 0x8000_0000_0000_0000 {
        -float_mag(b)
    } else {
        float_mag(b)
    }
}

/// Three-way comparison of integers.
pub open spec fn int_order(a: int, b: int) -> Cmp {
    if a < b {
        Cmp::Less
    } else if a == b {
        Cmp::Equal
    } else {
        Cmp::Greater
    }
}

/// The order of two doubles by value, as `f64::partial_cmp` gives it,
/// with an unordered pair (either one NaN) taken as equal.
pub open spec fn double_order(a: u64, b: u64) -> Cmp {
    if is_nan_bits(a) || is_nan_bits(b) {
        Cmp::Equal
    } else {
        int_order(float_key(a), float_key(b))
    }
}

/// Whether two doubles are equal as `f64 == f64` decides: neither is a
/// NaN and they have the same value (so `0.0 == -0.0`).
pub open spec fn double_eq(a: u64, b: u64) -> bool {
    !is_nan_bits(a) && !is_nan_bits(b) && float_key(a) == float_key(b)
}

fn float_key_of(b: u64) -> (r: i128)
    ensures
        r as int == float_key(b),
{
    let mag = b % 0x8000_0000_0000_0000;
    if b >= 0x8000_0000_0000_0000 {
        0 - (mag as i128)
    } else {
        mag as i128
    }
}

fn is_nan(b: u64) -> (r: bool)
    ensures
        r == is_nan_bits(b),
{
    b % 0x8000_0000_0000_0000 > 0x7ff0_0000_0000_0000
}

fn order_i128(a: i128, b: i128) -> (r: Cmp)
    ensures
        r == int_order(a as int, b as int),
{
    if a < b {
        Cmp::Less
    } else if a == b {
        Cmp::Equal
    } else {
        Cmp::Greater
    }
}

/// Compares two doubles given by their bit patterns.
pub fn double_compare(a: u64, b: u64) -> (r: Cmp)
    ensures
        r == double_order(a, b),
{
    if is_nan(a) || is_nan(b) {
        Cmp::Equal
    } else {
        order_i128(float_key_of(a), float_key_of(b))
    }
}

/// Whether two doubles, given by their bit patterns, are equal.
pub fn double_equal(a: u64, b: u64) -> (r: bool)
    ensures
        r == double_eq(a, b),
{
    !is_nan(a) && !is_nan(b) && float_key_of(a) == float_key_of(b)
}

/// The number of binary digits of `a`.
pub open spec fn bit_len(a: nat) -> nat
    decreases a,
{
    if a == 0 {
        0
    } else {
        1 + bit_len(a / 2)
    }
}

proof fn lemma_bit_len(a: nat)
    requires
        a >= 1,
    ensures
        bit_len(a) >= 1,
        pow2((bit_len(a) - 1) as nat) <= a < pow2(bit_len(a)),
    decreases a,
{
    lemma2_to64();
    if a == 1 {
        assert(bit_len(0) == 0);
        assert(bit_len(1) == 1 + bit_len(0));
    } else {
        lemma_bit_len(a / 2);
        let k = bit_len(a / 2);
        assert(bit_len(a) == 1 + k);
        lemma_pow2_unfold(k + 1);
        lemma_pow2_unfold(k);
        assert(pow2((k - 1) as nat) <= a / 2 < pow2(k));
        assert(pow2(k) == 2 * pow2((k - 1) as nat));
        assert(pow2(k + 1) == 2 * pow2(k));
    }
}

proof fn lemma_bit_len_le(a: nat, k: nat)
    requires
        a < pow2(k),
    ensures
        bit_len(a) <= k,
{
    if a >= 1 && bit_len(a) > k {
        lemma_bit_len(a);
        if ((bit_len(a) - 1) as nat) > k {
            lemma_pow2_strictly_increases(k, (bit_len(a) - 1) as nat);
        }
    }
}

/// The 53-bit significand (leading bit included) and the unbiased exponent
/// of the double nearest to `a >= 1` with `n = bit_len(a)`: round to
/// nearest, ties to even, as `i64 as f64` converts.
pub open spec fn rounded(a: nat, n: nat) -> (nat, nat) {
    if n <= 53 {
        (a * pow2((53 - n) as nat), (n - 1) as nat)
    } else {
        let sh = (n - 53) as nat;
        let q = a / pow2(sh);
        let r = a % pow2(sh);
        let half = pow2((sh - 1) as nat);
        let q2 = if r > half || (r == half && q % 2 == 1) { q + 1 } else { q };
        if q2 == pow2(53) {
            (pow2(52), n)
        } else {
            (q2, (n - 1) as nat)
        }
    }
}

/// The magnitude of an integer.
pub open spec fn abs_nat(x: i64) -> nat {
    if x < 0 {
        (-(x as int)) as nat
    } else {
        x as nat
    }
}

/// The bit pattern of `x as f64`.
pub open spec fn int_to_double(x: i64) -> u64 {
    if x == 0 {
        0
    } else {
        let a = abs_nat(x);
        let me = rounded(a, bit_len(a));
        let sign: int = if x < 0 { 0x8000_0000_0000_0000 } else { 0 };
        (sign + (me.1 + 1023) * 0x10_0000_0000_0000 + (me.0 - 0x10_0000_0000_0000)) as u64
    }
}

fn pow2_of(k: u64) -> (r: u64)
    requires
        k < 64,
    ensures
        r as nat == pow2(k as nat),
{
    let mut r: u64 = 1;
    let mut i: u64 = 0;
    proof {
        lemma2_to64();
    }
    while i < k
        invariant
            i <= k < 64,
            r as nat == pow2(i as nat),
        decreases k - i,
    {
        proof {
            lemma_pow2_unfold((i + 1) as nat);
            lemma_pow2_strictly_increases((i + 1) as nat, 64);
            lemma2_to64();
        }
        r = r * 2;
        i = i + 1;
    }
    r
}

/// The bit pattern of `x as f64`: the nearest double, ties to even.
pub fn int_to_double_bits(x: i64) -> (r: u64)
    ensures
        r == int_to_double(x),
{
    if x == 0 {
        return 0;
    }
    let a: u64 = if x < 0 { (0i128 - (x as i128)) as u64 } else { x as u64 };
    let ghost an = abs_nat(x);
    proof {
        assert(a as nat == an);
        lemma2_to64();
        assert(an < pow2(64));
        lemma_bit_len_le(an, 64);
        lemma_bit_len(an);
    }
    let mut n: u64 = 0;
    let mut t: u64 = a;
    while t > 0
        invariant
            bit_len(an) == n + bit_len(t as nat),
            bit_len(an) <= 64,
        decreases t,
    {
        proof {
            assert(bit_len(t as nat) == 1 + bit_len((t / 2) as nat));
        }
        t = t / 2;
        n = n + 1;
    }
    proof {
        assert(bit_len(0) == 0);
        assert(n as nat == bit_len(an));
    }
    let ghost nn = n as nat;
    let m: u64;
    let e: u64;
    if n <= 53 {
        let p = pow2_of(53 - n);
        proof {
            lemma_pow2_pos((53 - nn) as nat);
            vstd::arithmetic::power2::lemma2_to64_rest();
            lemma_pow2_adds(nn, (53 - nn) as nat);
            assert(nn + (53 - nn) as nat == 53);
            lemma_pow2_adds((nn - 1) as nat, (53 - nn) as nat);
            assert((nn - 1) as nat + (53 - nn) as nat == 52);
            assert(a < pow2(nn));
            assert((a as nat) * (p as nat) < pow2(nn) * (p as nat)) by (nonlinear_arith)
                requires
                    (a as nat) < pow2(nn),
                    (p as nat) > 0,
            ;
            assert(pow2((nn - 1) as nat) * (p as nat) <= (a as nat) * (p as nat)) by (nonlinear_arith)
                requires
                    pow2((nn - 1) as nat) <= (a as nat),
            ;
            assert((a as nat) * (p as nat) < pow2(53));
        }
        m = a * p;
        e = n - 1;
        proof {
            assert(rounded(an, nn) == ((m as nat), (e as nat)));
            assert(0x10_0000_0000_0000 <= m < 0x20_0000_0000_0000);
        }
    } else {
        let sh = n - 53;
        let p = pow2_of(sh);
        let q = a / p;
        let r = a % p;
        let half = pow2_of(sh - 1);
        proof {
            let shn = sh as nat;
            vstd::arithmetic::power2::lemma2_to64_rest();
            lemma_pow2_pos(shn);
            lemma_pow2_adds(53, shn);
            lemma_pow2_adds(52, shn);
            assert(53 + shn == nn);
            assert(52 + shn == (nn - 1) as nat);
            assert(pow2(52) * (p as nat) <= (a as nat) < pow2(53) * (p as nat));
            assert((q as nat) >= pow2(52)) by (nonlinear_arith)
                requires
                    pow2(52) * (p as nat) <= (a as nat),
                    (p as nat) > 0,
                    (q as nat) == (a as nat) / (p as nat),
            ;
            assert((q as nat) < pow2(53)) by (nonlinear_arith)
                requires
                    (a as nat) < pow2(53) * (p as nat),
                    (p as nat) > 0,
                    (q as nat) == (a as nat) / (p as nat),
            ;
        }
        let q2 = if r > half || (r == half && q % 2 == 1) { q + 1 } else { q };
        if q2 == 0x20_0000_0000_0000 {
            m = 0x10_0000_0000_0000;
            e = n;
        } else {
            m = q2;
            e = n - 1;
        }
        proof {
            assert(rounded(an, nn) == ((m as nat), (e as nat)));
            assert(0x10_0000_0000_0000 <= m < 0x20_0000_0000_0000);
        }
    }
    let sign: u64 = if x < 0 { 0x8000_0000_0000_0000 } else { 0 };
    proof {
        assert(e <= 64);
        assert((e + 1023) * 0x10_0000_0000_0000 <= 1087 * 0x10_0000_0000_0000);
    }
    sign + (e + 1023) * 0x10_0000_0000_0000 + (m - 0x10_0000_0000_0000)
}

// ---------------------------------------------------------------------
// Comparison and equality of property values
// ---------------------------------------------------------------------

/// The order of two character sequences.
pub open spec fn text_order(a: Seq<char>, b: Seq<char>) -> Cmp {
    if lex_lt(a, b) {
        Cmp::Less
    } else if a == b {
        Cmp::Equal
    } else {
        Cmp::Greater
    }
}

/// How two property values compare, where they are comparable: integers
/// and doubles by value (an integer is first converted to the nearest
/// double when compared with a double), strings by code point, `false`
/// before `true`, null equal to null; values of other mixed kinds are not
/// comparable.
pub open spec fn value_order(a: PropView, b: PropView) -> Option<Cmp> {
    match (a, b) {
        (PropView::Int(x), PropView::Int(y)) => Some(int_order(x as int, y as int)),
        (PropView::Float(x, _, _, _), PropView::Float(y, _, _, _)) => Some(double_order(x, y)),
        (PropView::Int(x), PropView::Float(y, _, _, _)) => Some(double_order(int_to_double(x), y)),
        (PropView::Float(x, _, _, _), PropView::Int(y)) => Some(double_order(x, int_to_double(y))),
        (PropView::Str(x), PropView::Str(y)) => Some(text_order(x, y)),
        (PropView::Bool(x), PropView::Bool(y)) => Some(
            if x == y { Cmp::Equal } else if !x { Cmp::Less } else { Cmp::Greater },
        ),
        (PropView::Null, PropView::Null) => Some(Cmp::Equal),
        _ => None,
    }
}

/// Whether an order satisfies a comparison operator.
pub open spec fn op_holds(op: CompareOp, c: Cmp) -> bool {
    match op {
        CompareOp::Eq => c == Cmp::Equal,
        CompareOp::Ne => c != Cmp::Equal,
        CompareOp::Lt => c == Cmp::Less,
        CompareOp::Le => c != Cmp::Greater,
        CompareOp::Gt => c == Cmp::Greater,
        CompareOp::Ge => c != Cmp::Less,
    }
}

/// Whether `a op b` holds: both values present and comparable, and their
/// order satisfying `op`.
pub open spec fn compare_holds(op: CompareOp, a: Option<PropView>, b: Option<PropView>) -> bool {
    match (a, b) {
        (Some(x), Some(y)) => match value_order(x, y) {
            Some(c) => op_holds(op, c),
            None => false,
        },
        _ => false,
    }
}

/// The view of an optional value.
pub open spec fn opt_pv(v: Option<PropValue>) -> Option<PropView> {
    match v {
        Some(p) => Some(p.pv()),
        None => None,
    }
}

/// The view of an optional borrowed value.
pub open spec fn opt_ref_pv(v: Option<&PropValue>) -> Option<PropView> {
    match v {
        Some(p) => Some(p.pv()),
        None => None,
    }
}

fn text_compare(a: &String, b: &String) -> (r: Cmp)
    ensures
        r == text_order(a@, b@),
{
    let ac = chars_of(a.as_str());
    let bc = chars_of(b.as_str());
    let c = compare_chars(&ac, &bc);
    proof {
        crate::order::lemma_lex_irreflexive(a@);
    }
    c
}

/// How two property values compare, if they are comparable.
pub fn value_compare(a: &PropValue, b: &PropValue) -> (r: Option<Cmp>)
    ensures
        r == value_order(a.pv(), b.pv()),
{
    match (a, b) {
        (PropValue::Int(x), PropValue::Int(y)) => Some(order_i128(*x as i128, *y as i128)),
        (PropValue::Float { bits: x, .. }, PropValue::Float { bits: y, .. }) => Some(double_compare(*x, *y)),
        (PropValue::Int(x), PropValue::Float { bits: y, .. }) => Some(double_compare(int_to_double_bits(*x), *y)),
        (PropValue::Float { bits: x, .. }, PropValue::Int(y)) => Some(double_compare(*x, int_to_double_bits(*y))),
        (PropValue::Str(x), PropValue::Str(y)) => Some(text_compare(x, y)),
        (PropValue::Bool(x), PropValue::Bool(y)) => Some(
            if *x == *y {
                Cmp::Equal
            } else if !*x {
                Cmp::Less
            } else {
                Cmp::Greater
            },
        ),
        (PropValue::Null, PropValue::Null) => Some(Cmp::Equal),
        _ => None,
    }
}

/// `a op b` for two optional values: false when either is missing or the
/// two are not comparable.
pub fn compare_propvalues(op: CompareOp, a: Option<&PropValue>, b: Option<&PropValue>) -> (r: bool)
    ensures
        r == compare_holds(op, opt_ref_pv(a), opt_ref_pv(b)),
{
    let (x, y) = match (a, b) {
        (Some(x), Some(y)) => (x, y),
        _ => return false,
    };
    let c = match value_compare(x, y) {
        Some(c) => c,
        None => return false,
    };
    match op {
        CompareOp::Eq => c == Cmp::Equal,
        CompareOp::Ne => c != Cmp::Equal,
        CompareOp::Lt => c == Cmp::Less,
        CompareOp::Le => c != Cmp::Greater,
        CompareOp::Gt => c == Cmp::Greater,
        CompareOp::Ge => c != Cmp::Less,
    }
}

/// Whether two property values are equal as `==` on them decides: the
/// same kind and the same value, doubles as `f64 == f64` (a NaN equals
/// nothing, `0.0` equals `-0.0`).
pub open spec fn value_eq(a: PropView, b: PropView) -> bool {
    match (a, b) {
        (PropView::Float(x, _, _, _), PropView::Float(y, _, _, _)) => double_eq(x, y),
        (PropView::Float(..), _) => false,
        (_, PropView::Float(..)) => false,
        _ => a == b,
    }
}

/// Whether two property values are equal.
pub fn values_equal(a: &PropValue, b: &PropValue) -> (r: bool)
    ensures
        r == value_eq(a.pv(), b.pv()),
{
    match (a, b) {
        (PropValue::Float { bits: x, .. }, PropValue::Float { bits: y, .. }) => double_equal(*x, *y),
        (PropValue::Float { .. }, _) => false,
        (_, PropValue::Float { .. }) => false,
        _ => a.same_as(b),
    }
}

/// Whether two property entries are equal: the same key, equal values.
pub open spec fn entry_eq(x: (Seq<char>, PropView), y: (Seq<char>, PropView)) -> bool {
    x.0 == y.0 && value_eq(x.1, y.1)
}

/// Whether two property maps are equal as `==` on them decides: the same
/// keys in the same order, each value equal by `value_eq`.
pub open spec fn props_eq(a: Props, b: Props) -> bool {
    &&& props_view(a).len() == props_view(b).len()
    &&& forall|i: int| 0 <= i < props_view(a).len() ==> #[trigger] entry_eq(props_view(a)[i], props_view(b)[i])
}

/// Whether two property maps are equal.
pub fn props_equal(a: &Props, b: &Props) -> (r: bool)
    ensures
        r == props_eq(*a, *b),
{
    if a.entries.len() != b.entries.len() {
        return false;
    }
    let mut i: usize = 0;
    while i < a.entries.len()
        invariant
            i <= a.entries@.len(),
            a.entries@.len() == b.entries@.len(),
            forall|k: int| 0 <= k < i ==> #[trigger] entry_eq(props_view(*a)[k], props_view(*b)[k]),
        decreases a.entries@.len() - i,
    {
        let same = str_eq(a.entries[i].0.as_str(), b.entries[i].0.as_str()) && values_equal(&a.entries[i].1, &b.entries[i].1);
        proof {
            assert(props_view(*a)[i as int] == (a.entries@[i as int].0@, a.entries@[i as int].1.pv()));
            assert(props_view(*b)[i as int] == (b.entries@[i as int].0@, b.entries@[i as int].1.pv()));
            assert(same == entry_eq(props_view(*a)[i as int], props_view(*b)[i as int]));
        }
        if !same {
            return false;
        }
        i = i + 1;
    }
    true
}

/// Whether two nodes are equal as `==` on them decides: the same id, label
/// and properties by `props_eq`.
pub open spec fn node_eq(a: Node, b: Node) -> bool {
    a.id@ == b.id@ && a.label@ == b.label@ && props_eq(a.props, b.props)
}

/// Whether two nodes are equal.
pub fn nodes_equal(a: &Node, b: &Node) -> (r: bool)
    ensures
        r == node_eq(*a, *b),
{
    str_eq(a.id.as_str(), b.id.as_str()) && str_eq(a.label.as_str(), b.label.as_str()) && props_equal(&a.props, &b.props)
}

/// Whether a property value is a NaN double.
pub open spec fn is_nan_value(v: PropView) -> bool {
    v matches PropView::Float(b, _, _, _) && is_nan_bits(b)
}

// ---------------------------------------------------------------------
// Sort keys
// ---------------------------------------------------------------------

/// `k` zeros.
pub open spec fn zeros(k: nat) -> Seq<char> {
    Seq::new(k, |i: int| '0')
}

/// The zeros that pad `len` characters to `width`.
pub open spec fn pad_zeros(width: nat, len: nat) -> Seq<char> {
    if len < width {
        zeros((width - len) as nat)
    } else {
        Seq::empty()
    }
}

/// An integer zero-padded to width 20, sign first (`format!("{:020}", n)`).
pub open spec fn padded_int(n: int) -> Seq<char> {
    if n < 0 {
        let d = decimal((-n) as nat);
        seq!['-'] + pad_zeros(19, d.len()) + d
    } else {
        let d = decimal(n as nat);
        pad_zeros(20, d.len()) + d
    }
}

/// The text a value sorts and groups by: a kind tag, then the value
/// (integers zero-padded, doubles in their fixed-point rendering).
pub open spec fn value_key(v: PropView) -> Seq<char> {
    match v {
        PropView::Null => "0:"@,
        PropView::Bool(b) => "1:"@ + (if b { "true"@ } else { "false"@ }),
        PropView::Int(i) => "2:"@ + padded_int(i as int),
        PropView::Float(_, _, _, fixed) => "3:"@ + fixed,
        PropView::Str(s) => "4:"@ + s,
    }
}

/// The sort texts of a list of values.
pub open spec fn value_keys(items: Seq<PropView>) -> Seq<Seq<char>> {
    items.map_values(|p: PropView| value_key(p))
}

/// The text a row value sorts by.
pub open spec fn row_value_key(v: RowView) -> Seq<char> {
    match v {
        RowView::Scalar(p) => value_key(p),
        RowView::List(items) => "L["@ + join_with(value_keys(items), ","@) + "]"@,
    }
}

/// The parts of a row's sort text: `name=` then the value's text, for each
/// column in name order.
pub open spec fn row_key_parts(row: Seq<(Seq<char>, RowView)>) -> Seq<Seq<char>>
    decreases row.len(),
{
    if row.len() == 0 {
        Seq::empty()
    } else {
        row_key_parts(row.drop_last()) + seq![row.last().0 + "="@, row_value_key(row.last().1)]
    }
}

/// The text a row sorts and is deduplicated by.
pub open spec fn row_key(row: Seq<(Seq<char>, RowView)>) -> Seq<char> {
    join_with(row_key_parts(row), "|"@)
}

fn push_zeros(out: &mut String, k: usize)
    ensures
        final(out)@ == old(out)@ + zeros(k as nat),
{
    let ghost start = out@;
    let mut i: usize = 0;
    while i < k
        invariant
            i <= k,
            out@ == start + zeros(i as nat),
        decreases k - i,
    {
        push_char(out, '0');
        proof {
            assert(zeros((i + 1) as nat) =~= zeros(i as nat).push('0'));
        }
        i = i + 1;
    }
}

fn char_count(s: &String) -> (n: usize)
    ensures
        n as nat == s@.len(),
{
    chars_of(s.as_str()).len()
}

/// Appends `n` zero-padded to width 20.
pub fn push_padded_int(out: &mut String, n: i64)
    ensures
        final(out)@ == old(out)@ + padded_int(n as int),
{
    let mut d = String::new();
    if n < 0 {
        let m: u64 = ((-(n + 1)) as u64) + 1;
        push_decimal(&mut d, m);
        let len = char_count(&d);
        push_char(out, '-');
        let pad: usize = if len < 19 { 19 - len } else { 0 };
        push_zeros(out, pad);
        push_str(out, d.as_str());
        proof {
            assert(d@ == decimal((-(n as int)) as nat));
            assert(zeros(pad as nat) == pad_zeros(19, d@.len()));
        }
    } else {
        push_decimal(&mut d, n as u64);
        let len = char_count(&d);
        let pad: usize = if len < 20 { 20 - len } else { 0 };
        push_zeros(out, pad);
        push_str(out, d.as_str());
        proof {
            assert(zeros(pad as nat) == pad_zeros(20, d@.len()));
        }
    }
}

/// Appends the sort text of a value.
pub fn push_value_key(out: &mut String, v: &PropValue)
    ensures
        final(out)@ == old(out)@ + value_key(v.pv()),
{
    proof {
        reveal_strlit("0:");
        reveal_strlit("1:");
        reveal_strlit("2:");
        reveal_strlit("3:");
        reveal_strlit("4:");
        reveal_strlit("true");
        reveal_strlit("false");
    }
    match v {
        PropValue::Null => push_str(out, "0:"),
        PropValue::Bool(b) => {
            push_str(out, "1:");
            push_str(out, if *b { "true" } else { "false" });
        },
        PropValue::Int(i) => {
            push_str(out, "2:");
            push_padded_int(out, *i);
        },
        PropValue::Float { fixed, .. } => {
            push_str(out, "3:");
            push_str(out, fixed.as_str());
        },
        PropValue::Str(s) => {
            push_str(out, "4:");
            push_str(out, s.as_str());
        },
    }
}

/// The sort text of a value.
pub fn value_sort_key(v: &PropValue) -> (r: String)
    ensures
        r@ == value_key(v.pv()),
{
    let mut out = String::new();
    push_value_key(&mut out, v);
    out
}

proof fn lemma_join_step(parts: Seq<Seq<char>>, sep: Seq<char>, i: int)
    requires
        0 <= i < parts.len(),
    ensures
        join_with(parts.take(i + 1), sep) == if i == 0 {
            parts[0]
        } else {
            join_with(parts.take(i), sep) + sep + parts[i]
        },
{
    assert(parts.take(i + 1).drop_last() =~= parts.take(i));
    assert(parts.take(i + 1).last() == parts[i]);
    if i == 0 {
        assert(parts.take(1).len() == 1);
    }
}

/// Appends the sort text of a row value.
pub fn push_row_value_key(out: &mut String, v: &RowValue)
    ensures
        final(out)@ == old(out)@ + row_value_key(v.rv()),
{
    match v {
        RowValue::Scalar(p) => push_value_key(out, p),
        RowValue::List(items) => {
            let ghost start = out@;
            let ghost keys = value_keys(pvs(items@));
            push_str(out, "L[");
            let mut i: usize = 0;
            while i < items.len()
                invariant
                    i <= items@.len(),
                    keys == value_keys(pvs(items@)),
                    out@ == start + "L["@ + join_with(keys.take(i as int), ","@),
                decreases items@.len() - i,
            {
                proof {
                    lemma_join_step(keys, ","@, i as int);
                    reveal_strlit(",");
                }
                if i > 0 {
                    push_str(out, ",");
                }
                push_value_key(out, &items[i]);
                proof {
                    assert(keys[i as int] == value_key(items@[i as int].pv()));
                    if i == 0 {
                        assert(join_with(keys.take(0), ","@) =~= Seq::<char>::empty());
                    }
                }
                i = i + 1;
            }
            push_str(out, "]");
            proof {
                assert(keys.take(i as int) =~= keys);
            }
        },
    }
}

/// The sort text of a row.
pub fn row_sort_key(row: &Row) -> (r: String)
    ensures
        r@ == row_key(row_view(*row)),
{
    let ghost rv = row_view(*row);
    let ghost parts = row_key_parts(rv);
    let mut out = String::new();
    let mut i: usize = 0;
    proof {
        reveal_strlit("|");
        reveal_strlit("=");
        assert(row_key_parts(rv.take(0)) =~= Seq::<Seq<char>>::empty());
    }
    while i < row.entries.len()
        invariant
            i <= row.entries@.len(),
            rv == row_view(*row),
            out@ == join_with(row_key_parts(rv.take(i as int)), "|"@),
        decreases row.entries@.len() - i,
    {
        let ghost before = row_key_parts(rv.take(i as int));
        proof {
            assert(rv.take(i + 1).drop_last() =~= rv.take(i as int));
            assert(rv.take(i + 1).last() == rv[i as int]);
            let after = row_key_parts(rv.take(i + 1));
            assert(after == before + seq![rv[i as int].0 + "="@, row_value_key(rv[i as int].1)]);
            assert(after.take(before.len() as int) =~= before);
            lemma_join_step(after, "|"@, before.len() as int);
            lemma_join_step(after, "|"@, before.len() as int + 1);
            assert(after.take(before.len() as int + 2) =~= after);
        }
        if i > 0 {
            push_str(&mut out, "|");
        }
        push_str(&mut out, row.entries[i].0.as_str());
        push_str(&mut out, "=");
        push_str(&mut out, "|");
        push_row_value_key(&mut out, &row.entries[i].1);
        i = i + 1;
    }
    proof {
        assert(rv.take(i as int) =~= rv);
    }
    out
}

// ---------------------------------------------------------------------
// The order of `ORDER BY`
// ---------------------------------------------------------------------

/// The order `ORDER BY` puts two values in: null first; numbers by value;
/// strings by code point; `false` before `true`; other mixed kinds by
/// their sort texts.
pub open spec fn sort_order(a: PropView, b: PropView) -> Cmp {
    match (a, b) {
        (PropView::Null, PropView::Null) => Cmp::Equal,
        (PropView::Null, _) => Cmp::Less,
        (_, PropView::Null) => Cmp::Greater,
        _ => match value_order(a, b) {
            Some(c) => c,
            None => text_order(value_key(a), value_key(b)),
        },
    }
}

/// The order `ORDER BY` puts two row values in: scalars as `sort_order`,
/// lists by length, a scalar before a list.
pub open spec fn row_value_order(a: RowView, b: RowView) -> Cmp {
    match (a, b) {
        (RowView::Scalar(x), RowView::Scalar(y)) => sort_order(x, y),
        (RowView::List(x), RowView::List(y)) => int_order(x.len() as int, y.len() as int),
        (RowView::Scalar(_), RowView::List(_)) => Cmp::Less,
        (RowView::List(_), RowView::Scalar(_)) => Cmp::Greater,
    }
}

/// Compares two values as `ORDER BY` does.
pub fn sort_compare(a: &PropValue, b: &PropValue) -> (r: Cmp)
    ensures
        r == sort_order(a.pv(), b.pv()),
{
    match (a, b) {
        (PropValue::Null, PropValue::Null) => Cmp::Equal,
        (PropValue::Null, _) => Cmp::Less,
        (_, PropValue::Null) => Cmp::Greater,
        _ => match value_compare(a, b) {
            Some(c) => c,
            None => {
                let ka = value_sort_key(a);
                let kb = value_sort_key(b);
                text_compare(&ka, &kb)
            },
        },
    }
}

/// Compares two row values as `ORDER BY` does.
pub fn row_value_compare(a: &RowValue, b: &RowValue) -> (r: Cmp)
    ensures
        r == row_value_order(a.rv(), b.rv()),
{
    match (a, b) {
        (RowValue::Scalar(x), RowValue::Scalar(y)) => sort_compare(x, y),
        (RowValue::List(x), RowValue::List(y)) => {
            proof {
                assert(pvs(x@).len() == x@.len());
                assert(pvs(y@).len() == y@.len());
            }
            order_i128(x.len() as i128, y.len() as i128)
        },
        (RowValue::Scalar(_), RowValue::List(_)) => Cmp::Less,
        (RowValue::List(_), RowValue::Scalar(_)) => Cmp::Greater,
    }
}


/// The comparison operators agree with one another: `>=` holds exactly
/// when `>` or `==` does, `<=` exactly when `<` or `==` does, `!=` exactly
/// when the values are comparable and not equal; of `<`, `==`, `>` at most
/// one holds; and `a < b` holds exactly when `b > a` does.
pub proof fn lemma_compare_operators_agree(a: Option<PropView>, b: Option<PropView>)
    ensures
        compare_holds(CompareOp::Ge, a, b) == (compare_holds(CompareOp::Gt, a, b) || compare_holds(CompareOp::Eq, a, b)),
        compare_holds(CompareOp::Le, a, b) == (compare_holds(CompareOp::Lt, a, b) || compare_holds(CompareOp::Eq, a, b)),
        compare_holds(CompareOp::Ne, a, b) == ((compare_holds(CompareOp::Lt, a, b) || compare_holds(CompareOp::Gt, a, b))),
        !(compare_holds(CompareOp::Lt, a, b) && compare_holds(CompareOp::Eq, a, b)),
        !(compare_holds(CompareOp::Gt, a, b) && compare_holds(CompareOp::Eq, a, b)),
        !(compare_holds(CompareOp::Lt, a, b) && compare_holds(CompareOp::Gt, a, b)),
        compare_holds(CompareOp::Lt, a, b) == compare_holds(CompareOp::Gt, b, a),
        compare_holds(CompareOp::Eq, a, b) == compare_holds(CompareOp::Eq, b, a),
{
    match (a, b) {
        (Some(x), Some(y)) => {
            match (x, y) {
                (PropView::Str(p), PropView::Str(q)) => {
                    crate::order::lemma_lex_asymmetric(p, q);
                    crate::order::lemma_lex_total(p, q);
                    crate::order::lemma_lex_irreflexive(p);
                },
                _ => {},
            }
        },
        _ => {},
    }
}

/// Every value but a NaN double equals itself: `x == x`, `x >= x` and
/// `x <= x` hold, and `x < x`, `x > x`, `x != x` do not.
pub proof fn lemma_compare_reflexive(x: PropView)
    requires
        !(x matches PropView::Float(b, _, _, _) && is_nan_bits(b)),
    ensures
        compare_holds(CompareOp::Eq, Some(x), Some(x)),
        compare_holds(CompareOp::Ge, Some(x), Some(x)),
        compare_holds(CompareOp::Le, Some(x), Some(x)),
        !compare_holds(CompareOp::Lt, Some(x), Some(x)),
        !compare_holds(CompareOp::Gt, Some(x), Some(x)),
        !compare_holds(CompareOp::Ne, Some(x), Some(x)),
{
    match x {
        PropView::Str(p) => {
            crate::order::lemma_lex_irreflexive(p);
        },
        _ => {},
    }
}

/// On integers, strings and booleans the comparisons are the familiar
/// ones: integers by value, strings by code points (a proper prefix first),
/// `false` before `true`; values of different kinds (other than integer
/// against double) compare by no operator.
pub proof fn lemma_compare_scalars(x: i64, y: i64, p: Seq<char>, q: Seq<char>, b: bool, c: bool)
    ensures
        compare_holds(CompareOp::Lt, Some(PropView::Int(x)), Some(PropView::Int(y))) == (x < y),
        compare_holds(CompareOp::Eq, Some(PropView::Int(x)), Some(PropView::Int(y))) == (x == y),
        compare_holds(CompareOp::Ge, Some(PropView::Int(x)), Some(PropView::Int(y))) == (x >= y),
        compare_holds(CompareOp::Lt, Some(PropView::Str(p)), Some(PropView::Str(q))) == lex_lt(p, q),
        compare_holds(CompareOp::Eq, Some(PropView::Str(p)), Some(PropView::Str(q))) == (p == q),
        compare_holds(CompareOp::Lt, Some(PropView::Bool(b)), Some(PropView::Bool(c))) == (!b && c),
        compare_holds(CompareOp::Eq, Some(PropView::Bool(b)), Some(PropView::Bool(c))) == (b == c),
        !compare_holds(CompareOp::Eq, Some(PropView::Str(p)), Some(PropView::Int(x))),
        !compare_holds(CompareOp::Ne, Some(PropView::Str(p)), Some(PropView::Int(x))),
        !compare_holds(CompareOp::Eq, Some(PropView::Null), Some(PropView::Int(x))),
        !compare_holds(CompareOp::Eq, None, Some(PropView::Int(x))),
{
    crate::order::lemma_lex_irreflexive(p);
    if p == q {
        crate::order::lemma_lex_irreflexive(q);
    }
}
} // verus!
