//! The canonical dump of a keyspace: one compact JSON object per line,
//! nodes sorted by `(label, qname)` then edges sorted by
//! `(label, src_qname, dst_qname)`, joined by `\n` with no trailing newline.
use vstd::prelude::*;

use crate::fact::{get_prop, int_text, prop_of, props_view, Edge, Node, PropValue, PropView, Props};
use crate::graph::{has_id, id_index, lemma_id_index_unique, KeyspaceState};
use crate::order::{lemma_lex_asymmetric, lemma_lex_irreflexive, lemma_lex_total, lemma_sorted_unique, lex_lt, sorted_by, strict_total_on};
use crate::graph_api::{id_map_entries, id_map_get};
use crate::keys::{lemma_lex3_irreflexive, lemma_lex3_total, lemma_lex3_transitive, lex3, LineKey};
use crate::sorted::{Keyed, SortedMap};
use crate::text::{push_char, push_str};

verus! {

/// Hexadecimal digit `d < 16`, lower case.
pub open spec fn hex_digit(d: nat) -> char {
    seq!['0', '1', '2', '3', '4', '5', '6', '7', '8', '9', 'a', 'b', 'c', 'd', 'e', 'f'][d as int]
}

/// How one character appears inside a JSON string: `"` and `\` and the
/// control characters are escaped (short forms where JSON has them,
/// `\u00XX` otherwise); every other character stands as itself.
pub open spec fn json_escape(c: char) -> Seq<char> {
    if c == '"' {
        seq!['\\', '"']
    } else if c == '\\' {
        seq!['\\', '\\']
    } else if c == '\u{8}' {
        seq!['\\', 'b']
    } else if c == '\t' {
        seq!['\\', 't']
    } else if c == '\n' {
        seq!['\\', 'n']
    } else if c == '\u{c}' {
        seq!['\\', 'f']
    } else if c == '\r' {
        seq!['\\', 'r']
    } else if (c as u32) < 0x20 {
        seq!['\\', 'u', '0', '0', hex_digit((c as u32 / 16) as nat), hex_digit((c as u32 % 16) as nat)]
    } else {
        seq![c]
    }
}

/// The escaped characters of `s`.
pub open spec fn json_escaped(s: Seq<char>) -> Seq<char>
    decreases s.len(),
{
    if s.len() == 0 {
        Seq::empty()
    } else {
        json_escaped(s.drop_last()) + json_escape(s.last())
    }
}

/// `s` as a JSON string literal.
pub open spec fn json_string(s: Seq<char>) -> Seq<char> {
    seq!['"'] + json_escaped(s) + seq!['"']
}

/// Renders a string as a JSON string literal (`serde_json::to_string` on a
/// `&str`).
///
/// The contract claims that the result is `s` between double quotes with
/// the escapes of `json_escape`, as serde_json's escape table gives them;
/// serialising a string cannot fail.
#[verifier::external_body]
fn json_quote(s: &str) -> (r: String)
    ensures
        r@ == json_string(s@),
{
    serde_json::to_string(s).expect("a string always serializes")
}

/// Renders an integer as a JSON number (`serde_json::to_string` on an
/// `i64`).
///
/// The contract claims that the result is the decimal rendering of `n`,
/// with a leading `-` when negative.
#[verifier::external_body]
fn json_int(n: i64) -> (r: String)
    ensures
        r@ == int_text(n as int),
{
    serde_json::to_string(&n).expect("an integer always serializes")
}

/// Properties kept out of the canonical dump: values that depend on the
/// machine the facts were enriched on.
pub open spec fn dump_excluded(k: Seq<char>) -> bool {
    k == "test_coverage"@
}

/// Whether property `k` is kept out of the canonical dump.
pub fn is_dump_excluded(k: &str) -> (r: bool)
    ensures
        r == dump_excluded(k@),
{
    crate::text::str_eq(k, "test_coverage")
}

/// A property value as JSON.
pub open spec fn json_value(v: PropView) -> Seq<char> {
    match v {
        PropView::Str(s) => json_string(s),
        PropView::Int(n) => int_text(n as int),
        PropView::Float(_, _, j, _) => match j {
            Some(t) => t,
            None => "null"@,
        },
        PropView::Bool(b) => if b {
            "true"@
        } else {
            "false"@
        },
        PropView::Null => "null"@,
    }
}

/// The `"key":value` members of the dumped properties, in key order.
pub open spec fn json_members(entries: Seq<(Seq<char>, PropView)>) -> Seq<Seq<char>>
    decreases entries.len(),
{
    if entries.len() == 0 {
        Seq::empty()
    } else {
        let e = entries.last();
        let rest = json_members(entries.drop_last());
        if dump_excluded(e.0) {
            rest
        } else {
            rest.push(json_string(e.0) + ":"@ + json_value(e.1))
        }
    }
}

/// The parts joined by `sep`.
pub open spec fn join_with(parts: Seq<Seq<char>>, sep: Seq<char>) -> Seq<char>
    decreases parts.len(),
{
    if parts.len() == 0 {
        Seq::empty()
    } else if parts.len() == 1 {
        parts[0]
    } else {
        join_with(parts.drop_last(), sep) + sep + parts.last()
    }
}

/// The dumped properties as a JSON object.
pub open spec fn props_json(p: Props) -> Seq<char> {
    "{"@ + join_with(json_members(props_view(p)), ","@) + "}"@
}

/// The `,"props":{..}` member, present when some property is dumped.
pub open spec fn props_member(p: Props) -> Seq<char> {
    if json_members(props_view(p)).len() > 0 {
        ",\"props\":"@ + props_json(p)
    } else {
        Seq::empty()
    }
}

/// The dump line of a node.
pub open spec fn node_line(n: Node) -> Seq<char> {
    "{\"id\":"@ + json_string(n.id@) + ",\"kind\":\"node\",\"label\":"@ + json_string(n.label@) + props_member(n.props)
        + "}"@
}

/// The dump line of an edge between nodes of the given qnames.
pub open spec fn edge_line(e: Edge, src_qname: Seq<char>, dst_qname: Seq<char>) -> Seq<char> {
    "{\"dst_qname\":"@ + json_string(dst_qname) + ",\"kind\":\"edge\",\"label\":"@ + json_string(e.label@)
        + props_member(e.props) + ",\"src_qname\":"@ + json_string(src_qname) + "}"@
}

/// A node's `qname` property when it is a string, else its id.
pub open spec fn qname_or_id(n: Node) -> Seq<char> {
    match prop_of(n.props, "qname"@) {
        Some(PropView::Str(q)) => q,
        _ => n.id@,
    }
}

/// The qname the node with id `id` goes by, or `id` itself when no node
/// has it.
pub open spec fn endpoint_qname(ns: Seq<Node>, id: Seq<char>) -> Seq<char> {
    if has_id(ns, id) {
        qname_or_id(ns[id_index(ns, id)])
    } else {
        id
    }
}

/// The sort key of node `i`: label, qname, then its position.
pub open spec fn node_sort_key(ns: Seq<Node>, i: int) -> (Seq<char>, Seq<char>, Seq<char>, usize) {
    (ns[i].label@, qname_or_id(ns[i]), Seq::empty(), i as usize)
}

/// The sort key of edge `j`: label, source qname, target qname, then its
/// position.
pub open spec fn edge_sort_key(s: KeyspaceState, j: int) -> (Seq<char>, Seq<char>, Seq<char>, usize) {
    let e = s.edges()[j].2;
    (e.label@, endpoint_qname(s.nodes(), e.src@), endpoint_qname(s.nodes(), e.dst@), j as usize)
}

/// The dump line of edge `j`.
pub open spec fn edge_dump_line(s: KeyspaceState, j: int) -> Seq<char> {
    let e = s.edges()[j].2;
    edge_line(e, endpoint_qname(s.nodes(), e.src@), endpoint_qname(s.nodes(), e.dst@))
}

/// `order` lists `0..keys.len()` once each, by increasing key.
pub open spec fn is_sort_order(keys: Seq<(Seq<char>, Seq<char>, Seq<char>, usize)>, order: Seq<usize>) -> bool {
    &&& order.len() == keys.len()
    &&& forall|a: int| 0 <= a < order.len() ==> #[trigger] order[a] < keys.len()
    &&& forall|i: usize| i < keys.len() ==> #[trigger] order.contains(i)
    &&& forall|a: int, b: int| 0 <= a < b < order.len() ==> LineKey::key_lt(keys[#[trigger] order[a] as int], keys[#[trigger] order[b] as int])
}

/// The dump of keyspace `s` with its nodes taken in `node_order` and its
/// edges in `edge_order`.
pub open spec fn dump_text(s: KeyspaceState, node_order: Seq<usize>, edge_order: Seq<usize>) -> Seq<char> {
    join_with(
        node_order.map_values(|i: usize| node_line(s.nodes()[i as int]))
            + edge_order.map_values(|j: usize| edge_dump_line(s, j as int)),
        "\n"@,
    )
}

/// The canonical dump of `s` is `text`: nodes by `(label, qname)`, edges
/// by `(label, src_qname, dst_qname)`, ties in insertion order.
pub open spec fn is_canonical_dump(s: KeyspaceState, text: Seq<char>) -> bool {
    exists|node_order: Seq<usize>, edge_order: Seq<usize>|
        is_sort_order(Seq::new(s.nodes().len(), |i: int| node_sort_key(s.nodes(), i)), node_order)
        && is_sort_order(Seq::new(s.edges().len(), |j: int| edge_sort_key(s, j)), edge_order)
        && #[trigger] dump_text(s, node_order, edge_order) == text
}

} // verus!

verus! {

proof fn lemma_join_push(parts: Seq<Seq<char>>, m: Seq<char>, sep: Seq<char>)
    ensures
        join_with(parts.push(m), sep) == if parts.len() == 0 {
            m
        } else {
            join_with(parts, sep) + sep + m
        },
{
    assert(parts.push(m).drop_last() =~= parts);
    if parts.len() == 0 {
        assert(parts.push(m)[0] == m);
    }
}

fn push_json_str(out: &mut String, s: &str)
    ensures
        final(out)@ == old(out)@ + json_string(s@),
{
    let q = json_quote(s);
    push_str(out, q.as_str());
}

fn push_json_value(out: &mut String, v: &PropValue)
    ensures
        final(out)@ == old(out)@ + json_value(v.pv()),
{
    match v {
        PropValue::Str(s) => push_json_str(out, s.as_str()),
        PropValue::Int(n) => {
            let t = json_int(*n);
            push_str(out, t.as_str());
        },
        PropValue::Float { json, .. } => match json {
            Some(t) => push_str(out, t.as_str()),
            None => push_str(out, "null"),
        },
        PropValue::Bool(b) => push_str(out, if *b { "true" } else { "false" }),
        PropValue::Null => push_str(out, "null"),
    }
}

/// The dumped properties as a JSON object, and how many there are.
fn props_json_text(p: &Props) -> (r: (String, usize))
    ensures
        r.0@ == props_json(*p),
        r.1 == json_members(props_view(*p)).len(),
{
    let ghost pv = props_view(*p);
    let mut out = String::new();
    push_str(&mut out, "{");
    let mut count: usize = 0;
    let mut i: usize = 0;
    while i < p.entries.len()
        invariant
            i <= p.entries@.len(),
            pv == props_view(*p),
            count == json_members(pv.take(i as int)).len(),
            count <= i,
            out@ == "{"@ + join_with(json_members(pv.take(i as int)), ","@),
        decreases p.entries@.len() - i,
    {
        let ghost before = out@;
        let ghost ms = json_members(pv.take(i as int));
        proof {
            assert(pv.take(i + 1).drop_last() =~= pv.take(i as int));
            assert(pv.take(i + 1).last() == pv[i as int]);
        }
        let k = &p.entries[i].0;
        if !is_dump_excluded(k.as_str()) {
            let ghost m = json_string(k@) + ":"@ + json_value(p.entries@[i as int].1.pv());
            if count > 0 {
                push_str(&mut out, ",");
            }
            push_json_str(&mut out, k.as_str());
            push_str(&mut out, ":");
            push_json_value(&mut out, &p.entries[i].1);
            proof {
                lemma_join_push(ms, m, ","@);
                assert(json_members(pv.take(i + 1)) == ms.push(m));
                if count > 0 {
                    assert(out@ =~= "{"@ + (join_with(ms, ","@) + ","@ + m));
                } else {
                    assert(out@ =~= "{"@ + m);
                }
            }
            count = count + 1;
        }
        i = i + 1;
    }
    proof {
        assert(pv.take(i as int) =~= pv);
    }
    push_str(&mut out, "}");
    (out, count)
}

fn push_props_member(out: &mut String, p: &Props)
    ensures
        final(out)@ == old(out)@ + props_member(*p),
{
    let (text, count) = props_json_text(p);
    if count > 0 {
        push_str(out, ",\"props\":");
        push_str(out, text.as_str());
    } else {
        proof {
            assert(old(out)@ + props_member(*p) =~= old(out)@);
        }
    }
}

/// The dump line of a node.
pub fn node_line_text(n: &Node) -> (r: String)
    ensures
        r@ == node_line(*n),
{
    let mut out = String::new();
    push_str(&mut out, "{\"id\":");
    push_json_str(&mut out, n.id.as_str());
    push_str(&mut out, ",\"kind\":\"node\",\"label\":");
    push_json_str(&mut out, n.label.as_str());
    push_props_member(&mut out, &n.props);
    push_str(&mut out, "}");
    proof {
        assert(out@ =~= node_line(*n));
    }
    out
}

/// The dump line of an edge between nodes of the given qnames.
pub fn edge_line_text(e: &Edge, src_qname: &str, dst_qname: &str) -> (r: String)
    ensures
        r@ == edge_line(*e, src_qname@, dst_qname@),
{
    let mut out = String::new();
    push_str(&mut out, "{\"dst_qname\":");
    push_json_str(&mut out, dst_qname);
    push_str(&mut out, ",\"kind\":\"edge\",\"label\":");
    push_json_str(&mut out, e.label.as_str());
    push_props_member(&mut out, &e.props);
    push_str(&mut out, ",\"src_qname\":");
    push_json_str(&mut out, src_qname);
    push_str(&mut out, "}");
    proof {
        assert(out@ =~= edge_line(*e, src_qname@, dst_qname@));
    }
    out
}

/// A node's `qname` property when it is a string, else its id.
pub fn qname_or_id_text(n: &Node) -> (r: String)
    requires
        n.props.wf(),
    ensures
        r@ == qname_or_id(*n),
{
    match get_prop(&n.props, "qname") {
        Some(v) => match v.as_str() {
            Some(q) => q.to_owned(),
            None => n.id.clone(),
        },
        None => n.id.clone(),
    }
}

/// The qname the node with id `id` goes by, or `id` itself.
fn endpoint_qname_text(state: &KeyspaceState, id: &str) -> (r: String)
    requires
        state.wf(),
    ensures
        r@ == endpoint_qname(state.nodes(), id@),
{
    proof {
        state.lemma_unique_ids();
    }
    match id_map_get(&state.id_to_idx, id) {
        Some(x) => {
            proof {
                assert(state.nodes()[x as int].id@ == id@);
                lemma_id_index_unique(state.nodes(), x as int);
            }
            qname_or_id_text(state.node(x))
        },
        None => {
            proof {
                if has_id(state.nodes(), id@) {
                    let i = id_index(state.nodes(), id@);
                    assert(id_map_entries(state.id_to_idx).contains_key(state.nodes()[i].id@));
                }
            }
            id.to_owned()
        },
    }
}

} // verus!

verus! {

/// The lines of a map of sort keys to lines, in key order, appended to
/// `out` (joined by `\n`; `any` tells whether a line was written yet).
fn push_lines(out: &mut String, any: &mut bool, m: &SortedMap<LineKey, String>, Ghost(done): Ghost<Seq<Seq<char>>>)
    requires
        *old(any) == (done.len() > 0),
        old(out)@ == join_with(done, "\n"@),
    ensures
        *final(any) == (done.len() + m.entries@.len() > 0),
        final(out)@ == join_with(done + m.entries@.map_values(|e: (LineKey, String)| e.1@), "\n"@),
{
    let ghost lines = m.entries@.map_values(|e: (LineKey, String)| e.1@);
    let mut k: usize = 0;
    while k < m.entries.len()
        invariant
            k <= m.entries@.len(),
            lines == m.entries@.map_values(|e: (LineKey, String)| e.1@),
            *any == (done.len() + k > 0),
            out@ == join_with(done + lines.take(k as int), "\n"@),
        decreases m.entries@.len() - k,
    {
        let ghost prev = done + lines.take(k as int);
        proof {
            assert(done + lines.take(k + 1) =~= prev.push(lines[k as int]));
            lemma_join_push(prev, lines[k as int], "\n"@);
        }
        if *any {
            push_char(out, '\n');
            proof {
                assert(seq!['\n'] =~= "\n"@) by {
                    reveal_strlit("\n");
                }
            }
        }
        push_str(out, m.entries[k].1.as_str());
        *any = true;
        k = k + 1;
    }
    proof {
        assert(lines.take(k as int) =~= lines);
    }
}

/// The canonical dump of a keyspace.
pub fn canonical_dump(state: &KeyspaceState) -> (r: String)
    requires
        state.wf(),
    ensures
        is_canonical_dump(*state, r@),
{
    let ghost ns = state.nodes();
    let ghost nkeys = Seq::new(ns.len(), |i: int| node_sort_key(ns, i));
    let n = state.node_count();
    let mut nmap: SortedMap<LineKey, String> = SortedMap::new();
    let mut i: usize = 0;
    while i < n
        invariant
            i <= n,
            n == ns.len(),
            ns == state.nodes(),
            nkeys == Seq::new(ns.len(), |i: int| node_sort_key(ns, i)),
            state.wf(),
            nmap.wf(),
            nmap.entries@.len() == i,
            forall|e: int| 0 <= e < nmap.entries@.len() ==> (#[trigger] nmap.entries@[e]).0.seq < i
                && nmap.entries@[e].0.kv() == nkeys[nmap.entries@[e].0.seq as int]
                && nmap.entries@[e].1@ == node_line(ns[nmap.entries@[e].0.seq as int]),
            forall|x: int| 0 <= x < i ==> nmap.has(#[trigger] nkeys[x]),
        decreases n - i,
    {
        let node = state.node(i);
        proof {
            assert(node.props.wf());
        }
        let key = LineKey { first: node.label.clone(), second: qname_or_id_text(node), third: String::new(), seq: i };
        let line = node_line_text(node);
        let ghost pre = nmap;
        let ghost kk = key.kv();
        let ghost lv = line;
        proof {
            assert(kk == nkeys[i as int]);
            if pre.has(kk) {
                let e = choose|e: int| 0 <= e < pre.entries@.len() && #[trigger] pre.entries@[e].0.kv() == kk;
                assert(pre.entries@[e].0.seq < i);
            }
        }
        nmap.insert(key, line);
        proof {
            assert forall|e: int| 0 <= e < nmap.entries@.len() implies (#[trigger] nmap.entries@[e]).0.seq < i + 1
                && nmap.entries@[e].0.kv() == nkeys[nmap.entries@[e].0.seq as int]
                && nmap.entries@[e].1@ == node_line(ns[nmap.entries@[e].0.seq as int]) by {
                nmap.lemma_lookup_at(e);
                let q = nmap.entries@[e].0.kv();
                if q != kk {
                    assert(pre.has(q));
                    let f = choose|f: int| 0 <= f < pre.entries@.len() && #[trigger] pre.entries@[f].0.kv() == q;
                    pre.lemma_lookup_at(f);
                }
            }
            assert forall|x: int| 0 <= x < i + 1 implies nmap.has(#[trigger] nkeys[x]) by {
                if x < i {
                    assert(pre.has(nkeys[x]));
                    assert(nkeys[x] != kk);
                }
            }
        }
        i = i + 1;
    }
    let ghost es = state.edges();
    let ghost ekeys = Seq::new(es.len(), |j: int| edge_sort_key(*state, j));
    let m = state.edge_count();
    let mut emap: SortedMap<LineKey, String> = SortedMap::new();
    let mut j: usize = 0;
    while j < m
        invariant
            j <= m,
            m == es.len(),
            es == state.edges(),
            ekeys == Seq::new(es.len(), |j: int| edge_sort_key(*state, j)),
            state.wf(),
            emap.wf(),
            emap.entries@.len() == j,
            forall|e: int| 0 <= e < emap.entries@.len() ==> (#[trigger] emap.entries@[e]).0.seq < j
                && emap.entries@[e].0.kv() == ekeys[emap.entries@[e].0.seq as int]
                && emap.entries@[e].1@ == edge_dump_line(*state, emap.entries@[e].0.seq as int),
            forall|x: int| 0 <= x < j ==> emap.has(#[trigger] ekeys[x]),
        decreases m - j,
    {
        let edge = state.edge(j);
        let src_q = endpoint_qname_text(state, edge.src.as_str());
        let dst_q = endpoint_qname_text(state, edge.dst.as_str());
        let line = edge_line_text(edge, src_q.as_str(), dst_q.as_str());
        let key = LineKey { first: edge.label.clone(), second: src_q, third: dst_q, seq: j };
        let ghost pre = emap;
        let ghost kk = key.kv();
        proof {
            assert(kk == ekeys[j as int]);
            if pre.has(kk) {
                let e = choose|e: int| 0 <= e < pre.entries@.len() && #[trigger] pre.entries@[e].0.kv() == kk;
                assert(pre.entries@[e].0.seq < j);
            }
        }
        emap.insert(key, line);
        proof {
            assert forall|e: int| 0 <= e < emap.entries@.len() implies (#[trigger] emap.entries@[e]).0.seq < j + 1
                && emap.entries@[e].0.kv() == ekeys[emap.entries@[e].0.seq as int]
                && emap.entries@[e].1@ == edge_dump_line(*state, emap.entries@[e].0.seq as int) by {
                emap.lemma_lookup_at(e);
                let q = emap.entries@[e].0.kv();
                if q != kk {
                    assert(pre.has(q));
                    let f = choose|f: int| 0 <= f < pre.entries@.len() && #[trigger] pre.entries@[f].0.kv() == q;
                    pre.lemma_lookup_at(f);
                }
            }
            assert forall|x: int| 0 <= x < j + 1 implies emap.has(#[trigger] ekeys[x]) by {
                if x < j {
                    assert(pre.has(ekeys[x]));
                    assert(ekeys[x] != kk);
                }
            }
        }
        j = j + 1;
    }
    let mut out = String::new();
    let mut any = false;
    proof {
        assert(out@ =~= join_with(Seq::<Seq<char>>::empty(), "\n"@));
    }
    push_lines(&mut out, &mut any, &nmap, Ghost(Seq::empty()));
    let ghost nlines = nmap.entries@.map_values(|e: (LineKey, String)| e.1@);
    proof {
        assert(Seq::<Seq<char>>::empty() + nlines =~= nlines);
    }
    push_lines(&mut out, &mut any, &emap, Ghost(nlines));
    proof {
        let norder = nmap.entries@.map_values(|e: (LineKey, String)| e.0.seq);
        let eorder = emap.entries@.map_values(|e: (LineKey, String)| e.0.seq);
        lemma_map_sort_order(nmap, nkeys, norder);
        lemma_map_sort_order(emap, ekeys, eorder);
        assert(norder.map_values(|i: usize| node_line(state.nodes()[i as int])) =~= nlines);
        assert(eorder.map_values(|j: usize| edge_dump_line(*state, j as int)) =~= emap.entries@.map_values(|e: (LineKey, String)| e.1@));
        assert(dump_text(*state, norder, eorder) == out@);
    }
    out
}

/// The positions of a map's keys, in key order.
fn seqs_of(m: &SortedMap<LineKey, ()>) -> (r: Vec<usize>)
    ensures
        r@ == m.entries@.map_values(|e: (LineKey, ())| e.0.seq),
{
    let mut out: Vec<usize> = Vec::new();
    let mut k: usize = 0;
    while k < m.entries.len()
        invariant
            k <= m.entries@.len(),
            out@ == m.entries@.map_values(|e: (LineKey, ())| e.0.seq).take(k as int),
        decreases m.entries@.len() - k,
    {
        out.push(m.entries[k].0.seq);
        proof {
            assert(m.entries@.map_values(|e: (LineKey, ())| e.0.seq).take(k + 1)
                =~= m.entries@.map_values(|e: (LineKey, ())| e.0.seq).take(k as int).push(m.entries@[k as int].0.seq));
        }
        k = k + 1;
    }
    proof {
        assert(m.entries@.map_values(|e: (LineKey, ())| e.0.seq).take(k as int) =~= m.entries@.map_values(|e: (LineKey, ())| e.0.seq));
    }
    out
}

/// The saving key of node `i`: label, id, then its position.
pub open spec fn save_node_keys(s: KeyspaceState) -> Seq<(Seq<char>, Seq<char>, Seq<char>, usize)> {
    Seq::new(s.nodes().len(), |i: int| (s.nodes()[i].label@, s.nodes()[i].id@, Seq::<char>::empty(), i as usize))
}

/// The saving key of edge `j`: label, source id, target id, then its
/// position.
pub open spec fn save_edge_keys(s: KeyspaceState) -> Seq<(Seq<char>, Seq<char>, Seq<char>, usize)> {
    Seq::new(s.edges().len(), |j: int| (s.edges()[j].2.label@, s.edges()[j].2.src@, s.edges()[j].2.dst@, j as usize))
}

/// The node indexes of `state` in saving order: by label, then id.
pub fn save_node_order(state: &KeyspaceState) -> (r: Vec<usize>)
    requires
        state.wf(),
    ensures
        is_sort_order(save_node_keys(*state), r@),
{
    let ghost ns = state.nodes();
    let ghost nkeys = save_node_keys(*state);
    let n = state.node_count();
    let mut nmap: SortedMap<LineKey, ()> = SortedMap::new();
    let mut i: usize = 0;
    while i < n
        invariant
            i <= n,
            n == ns.len(),
            ns == state.nodes(),
            nkeys == save_node_keys(*state),
            state.wf(),
            nmap.wf(),
            nmap.entries@.len() == i,
            forall|e: int| 0 <= e < nmap.entries@.len() ==> (#[trigger] nmap.entries@[e]).0.seq < i
                && nmap.entries@[e].0.kv() == nkeys[nmap.entries@[e].0.seq as int],
            forall|x: int| 0 <= x < i ==> nmap.has(#[trigger] nkeys[x]),
        decreases n - i,
    {
        let node = state.node(i);
        proof {
            assert(node.props.wf());
        }
        let key = LineKey { first: node.label.clone(), second: node.id.clone(), third: String::new(), seq: i };
        let ghost pre = nmap;
        let ghost kk = key.kv();
        proof {
            assert(kk == nkeys[i as int]);
            if pre.has(kk) {
                let e = choose|e: int| 0 <= e < pre.entries@.len() && #[trigger] pre.entries@[e].0.kv() == kk;
                assert(pre.entries@[e].0.seq < i);
            }
        }
        nmap.insert(key, ());
        proof {
            assert forall|e: int| 0 <= e < nmap.entries@.len() implies (#[trigger] nmap.entries@[e]).0.seq < i + 1
                && nmap.entries@[e].0.kv() == nkeys[nmap.entries@[e].0.seq as int] by {
                nmap.lemma_lookup_at(e);
                let q = nmap.entries@[e].0.kv();
                if q != kk {
                    assert(pre.has(q));
                    let f = choose|f: int| 0 <= f < pre.entries@.len() && #[trigger] pre.entries@[f].0.kv() == q;
                    pre.lemma_lookup_at(f);
                }
            }
            assert forall|x: int| 0 <= x < i + 1 implies nmap.has(#[trigger] nkeys[x]) by {
                if x < i {
                    assert(pre.has(nkeys[x]));
                    assert(nkeys[x] != kk);
                }
            }
        }
        i = i + 1;
    }
    let r = seqs_of(&nmap);
    proof {
        lemma_map_sort_order(nmap, nkeys, r@);
    }
    r
}

/// The edge indexes of `state` in saving order: by label, then source and
/// target id, ties by index.
pub fn save_edge_order(state: &KeyspaceState) -> (r: Vec<usize>)
    requires
        state.wf(),
    ensures
        is_sort_order(save_edge_keys(*state), r@),
{
    let ghost es = state.edges();
    let ghost ekeys = save_edge_keys(*state);
    let m = state.edge_count();
    let mut emap: SortedMap<LineKey, ()> = SortedMap::new();
    let mut j: usize = 0;
    while j < m
        invariant
            j <= m,
            m == es.len(),
            es == state.edges(),
            ekeys == save_edge_keys(*state),
            state.wf(),
            emap.wf(),
            emap.entries@.len() == j,
            forall|e: int| 0 <= e < emap.entries@.len() ==> (#[trigger] emap.entries@[e]).0.seq < j
                && emap.entries@[e].0.kv() == ekeys[emap.entries@[e].0.seq as int],
            forall|x: int| 0 <= x < j ==> emap.has(#[trigger] ekeys[x]),
        decreases m - j,
    {
        let edge = state.edge(j);
        let key = LineKey { first: edge.label.clone(), second: edge.src.clone(), third: edge.dst.clone(), seq: j };
        let ghost pre = emap;
        let ghost kk = key.kv();
        proof {
            assert(kk == ekeys[j as int]);
            if pre.has(kk) {
                let e = choose|e: int| 0 <= e < pre.entries@.len() && #[trigger] pre.entries@[e].0.kv() == kk;
                assert(pre.entries@[e].0.seq < j);
            }
        }
        emap.insert(key, ());
        proof {
            assert forall|e: int| 0 <= e < emap.entries@.len() implies (#[trigger] emap.entries@[e]).0.seq < j + 1
                && emap.entries@[e].0.kv() == ekeys[emap.entries@[e].0.seq as int] by {
                emap.lemma_lookup_at(e);
                let q = emap.entries@[e].0.kv();
                if q != kk {
                    assert(pre.has(q));
                    let f = choose|f: int| 0 <= f < pre.entries@.len() && #[trigger] pre.entries@[f].0.kv() == q;
                    pre.lemma_lookup_at(f);
                }
            }
            assert forall|x: int| 0 <= x < j + 1 implies emap.has(#[trigger] ekeys[x]) by {
                if x < j {
                    assert(pre.has(ekeys[x]));
                    assert(ekeys[x] != kk);
                }
            }
        }
        j = j + 1;
    }
    let r = seqs_of(&emap);
    proof {
        lemma_map_sort_order(emap, ekeys, r@);
    }
    r
}

/// A map holding exactly the keys `keys` (each carrying its own
/// position) lists those positions in sort order.
proof fn lemma_map_sort_order<V>(m: SortedMap<LineKey, V>, keys: Seq<(Seq<char>, Seq<char>, Seq<char>, usize)>, order: Seq<usize>)
    requires
        m.wf(),
        m.entries@.len() == keys.len(),
        order == m.entries@.map_values(|e: (LineKey, V)| e.0.seq),
        forall|e: int| 0 <= e < m.entries@.len() ==> (#[trigger] m.entries@[e]).0.seq < keys.len()
            && m.entries@[e].0.kv() == keys[m.entries@[e].0.seq as int],
        forall|x: int| 0 <= x < keys.len() ==> m.has(#[trigger] keys[x]),
        forall|x: int| 0 <= x < keys.len() ==> (#[trigger] keys[x]).3 == x,
    ensures
        is_sort_order(keys, order),
{
    assert forall|i: usize| i < keys.len() implies #[trigger] order.contains(i) by {
        assert(m.has(keys[i as int]));
        let e = choose|e: int| 0 <= e < m.entries@.len() && #[trigger] m.entries@[e].0.kv() == keys[i as int];
        assert(order[e] == i);
    }
    assert forall|a: int, b: int| 0 <= a < b < order.len() implies LineKey::key_lt(keys[#[trigger] order[a] as int], keys[#[trigger] order[b] as int]) by {
        assert(LineKey::key_lt(m.entries@[a].0.kv(), m.entries@[b].0.kv()));
    }
}

} // verus!

verus! {

/// In two sort orders of the same keys, an element does not sit later in
/// the second than in the first.
proof fn lemma_sort_position(keys: Seq<(Seq<char>, Seq<char>, Seq<char>, usize)>, o1: Seq<usize>, o2: Seq<usize>, a: int, b: int)
    requires
        is_sort_order(keys, o1),
        is_sort_order(keys, o2),
        0 <= a < o1.len(),
        0 <= b < o2.len(),
        o1[a] == o2[b],
    ensures
        b <= a,
{
    let x = o1[a];
    let pre2 = o2.take(b);
    let pre1 = o1.take(a);
    assert forall|c: int| 0 <= c < pre2.len() implies pre1.to_set().contains(#[trigger] pre2[c]) by {
        let y = o2[c];
        assert(LineKey::key_lt(keys[y as int], keys[x as int]));
        assert(o1.contains(y));
        let d = choose|d: int| 0 <= d < o1.len() && o1[d] == y;
        if d == a {
            LineKey::lemma_key_irreflexive(keys[x as int]);
        } else if d > a {
            assert(LineKey::key_lt(keys[x as int], keys[y as int]));
            LineKey::lemma_key_transitive(keys[x as int], keys[y as int], keys[x as int]);
            LineKey::lemma_key_irreflexive(keys[x as int]);
        } else {
            assert(pre1[d] == y);
        }
    }
    assert(pre2.to_set().subset_of(pre1.to_set()));
    assert(pre2.no_duplicates()) by {
        assert forall|c1: int, c2: int| 0 <= c1 < pre2.len() && 0 <= c2 < pre2.len() && c1 != c2 implies pre2[c1] != pre2[c2] by {
            if pre2[c1] == pre2[c2] {
                if c1 < c2 {
                    assert(LineKey::key_lt(keys[o2[c1] as int], keys[o2[c2] as int]));
                } else {
                    assert(LineKey::key_lt(keys[o2[c2] as int], keys[o2[c1] as int]));
                }
                LineKey::lemma_key_irreflexive(keys[o2[c1] as int]);
            }
        }
    }
    pre2.unique_seq_to_set();
    pre1.lemma_cardinality_of_set();
    vstd::set_lib::lemma_len_subset(pre2.to_set(), pre1.to_set());
}

/// Keys sort in one way only.
pub proof fn lemma_sort_order_unique(keys: Seq<(Seq<char>, Seq<char>, Seq<char>, usize)>, o1: Seq<usize>, o2: Seq<usize>)
    requires
        is_sort_order(keys, o1),
        is_sort_order(keys, o2),
    ensures
        o1 == o2,
{
    assert forall|a: int| 0 <= a < o1.len() implies o1[a] == o2[a] by {
        let x = o1[a];
        assert(o2.contains(x));
        let b = choose|b: int| 0 <= b < o2.len() && o2[b] == x;
        lemma_sort_position(keys, o1, o2, a, b);
        lemma_sort_position(keys, o2, o1, b, a);
    }
    assert(o1 =~= o2);
}

/// The canonical dump is a function of the keyspace: two dumps of one
/// keyspace are the same text.
pub proof fn lemma_canonical_dump_deterministic(s: KeyspaceState, t1: Seq<char>, t2: Seq<char>)
    requires
        is_canonical_dump(s, t1),
        is_canonical_dump(s, t2),
    ensures
        t1 == t2,
{
    let nk = Seq::new(s.nodes().len(), |i: int| node_sort_key(s.nodes(), i));
    let ek = Seq::new(s.edges().len(), |j: int| edge_sort_key(s, j));
    let (n1, e1) = choose|n: Seq<usize>, e: Seq<usize>| is_sort_order(nk, n) && is_sort_order(ek, e) && #[trigger] dump_text(s, n, e) == t1;
    let (n2, e2) = choose|n: Seq<usize>, e: Seq<usize>| is_sort_order(nk, n) && is_sort_order(ek, e) && #[trigger] dump_text(s, n, e) == t2;
    lemma_sort_order_unique(nk, n1, n2);
    lemma_sort_order_unique(ek, e1, e2);
}

} // verus!

verus! {

/// The entries of `e` whose key the dump keeps, in order.
pub open spec fn kept(e: Seq<(Seq<char>, PropView)>) -> Seq<(Seq<char>, PropView)>
    decreases e.len(),
{
    if e.len() == 0 {
        Seq::empty()
    } else if dump_excluded(e.last().0) {
        kept(e.drop_last())
    } else {
        kept(e.drop_last()).push(e.last())
    }
}

proof fn lemma_members_kept(e: Seq<(Seq<char>, PropView)>)
    ensures
        json_members(e) == json_members(kept(e)),
        forall|x: (Seq<char>, PropView)| #[trigger] kept(e).contains(x) <==> e.contains(x) && !dump_excluded(x.0),
    decreases e.len(),
{
    if e.len() > 0 {
        let rest = e.drop_last();
        lemma_members_kept(rest);
        if !dump_excluded(e.last().0) {
            assert(kept(e).drop_last() =~= kept(rest));
        }
        assert forall|x: (Seq<char>, PropView)| #[trigger] kept(e).contains(x) <==> e.contains(x) && !dump_excluded(x.0) by {
            if e.contains(x) && !dump_excluded(x.0) {
                let i = choose|i: int| 0 <= i < e.len() && e[i] == x;
                if i < e.len() - 1 {
                    assert(rest[i] == x);
                    assert(kept(rest).contains(x));
                    if !dump_excluded(e.last().0) {
                        let j = choose|j: int| 0 <= j < kept(rest).len() && kept(rest)[j] == x;
                        assert(kept(e)[j] == x);
                    }
                } else {
                    assert(kept(e)[kept(e).len() - 1] == x);
                }
            }
            if kept(e).contains(x) {
                let j = choose|j: int| 0 <= j < kept(e).len() && kept(e)[j] == x;
                if !dump_excluded(e.last().0) && j == kept(e).len() - 1 {
                    assert(e[e.len() - 1] == x);
                } else {
                    assert(kept(rest)[j] == x);
                    assert(kept(rest).contains(x));
                    let i = choose|i: int| 0 <= i < rest.len() && rest[i] == x;
                    assert(e[i] == x);
                }
            }
        }
    }
}

/// Ordering of property entries by key.
pub open spec fn entry_key_lt(x: (Seq<char>, PropView), y: (Seq<char>, PropView)) -> bool {
    lex_lt(x.0, y.0)
}

/// The entries' keys strictly increase.
pub open spec fn keys_sorted(e: Seq<(Seq<char>, PropView)>) -> bool {
    forall|a: int, b: int| 0 <= a < b < e.len() ==> #[trigger] entry_key_lt(e[a], e[b])
}

proof fn lemma_kept_sorted(e: Seq<(Seq<char>, PropView)>)
    requires
        keys_sorted(e),
    ensures
        keys_sorted(kept(e)),
    decreases e.len(),
{
    if e.len() > 0 {
        let rest = e.drop_last();
        assert(keys_sorted(rest)) by {
            assert forall|a: int, b: int| 0 <= a < b < rest.len() implies #[trigger] entry_key_lt(rest[a], rest[b]) by {
                assert(entry_key_lt(e[a], e[b]));
            }
        }
        lemma_kept_sorted(rest);
        lemma_members_kept(rest);
        if !dump_excluded(e.last().0) {
            let k = kept(e);
            assert forall|a: int, b: int| 0 <= a < b < k.len() implies #[trigger] entry_key_lt(k[a], k[b]) by {
                if b == k.len() - 1 {
                    assert(kept(rest).contains(k[a]));
                    let i = choose|i: int| 0 <= i < rest.len() && rest[i] == k[a];
                    assert(entry_key_lt(e[i], e[e.len() - 1]));
                } else {
                    assert(entry_key_lt(kept(rest)[a], kept(rest)[b]));
                }
            }
        }
    }
}

/// The entries of a well-formed property map are sorted by key, and hold
/// `(k, v)` exactly when `v` is the value under `k`.
pub proof fn lemma_props_view_facts(p: Props)
    requires
        p.wf(),
    ensures
        keys_sorted(props_view(p)),
        forall|x: (Seq<char>, PropView)| #[trigger] props_view(p).contains(x) <==> prop_of(p, x.0) == Some(x.1),
{
    let v = props_view(p);
    assert forall|a: int, b: int| 0 <= a < b < v.len() implies #[trigger] entry_key_lt(v[a], v[b]) by {
        assert(String::key_lt(p.entries@[a].0.kv(), p.entries@[b].0.kv()));
    }
    assert forall|x: (Seq<char>, PropView)| #[trigger] v.contains(x) <==> prop_of(p, x.0) == Some(x.1) by {
        if v.contains(x) {
            let i = choose|i: int| 0 <= i < v.len() && v[i] == x;
            p.lemma_lookup_at(i);
        }
        if prop_of(p, x.0) == Some(x.1) {
            assert(p.has(x.0));
            let i = choose|i: int| 0 <= i < p.entries@.len() && #[trigger] p.entries@[i].0.kv() == x.0;
            p.lemma_lookup_at(i);
            assert(v[i] == x);
        }
    }
}

/// Two property maps that agree on every property the dump keeps dump
/// the same members.
pub proof fn lemma_members_ignore_excluded(p1: Props, p2: Props)
    requires
        p1.wf(),
        p2.wf(),
        forall|k: Seq<char>| !dump_excluded(k) ==> #[trigger] prop_of(p1, k) == prop_of(p2, k),
    ensures
        json_members(props_view(p1)) == json_members(props_view(p2)),
        props_member(p1) == props_member(p2),
{
    let e1 = props_view(p1);
    let e2 = props_view(p2);
    lemma_props_view_facts(p1);
    lemma_props_view_facts(p2);
    lemma_members_kept(e1);
    lemma_members_kept(e2);
    lemma_kept_sorted(e1);
    lemma_kept_sorted(e2);
    let k1 = kept(e1);
    let k2 = kept(e2);
    let lt = |x: (Seq<char>, PropView), y: (Seq<char>, PropView)| entry_key_lt(x, y);
    assert(sorted_by(k1, lt)) by {
        assert forall|a: int, b: int| 0 <= a < b < k1.len() implies #[trigger] lt(k1[a], k1[b]) by {
            assert(entry_key_lt(k1[a], k1[b]));
        }
    }
    assert(sorted_by(k2, lt)) by {
        assert forall|a: int, b: int| 0 <= a < b < k2.len() implies #[trigger] lt(k2[a], k2[b]) by {
            assert(entry_key_lt(k2[a], k2[b]));
        }
    }
    assert forall|x: (Seq<char>, PropView)| k1.contains(x) <==> k2.contains(x) by {
        if k1.contains(x) {
            assert(prop_of(p1, x.0) == prop_of(p2, x.0));
        }
        if k2.contains(x) {
            assert(prop_of(p1, x.0) == prop_of(p2, x.0));
        }
    }
    assert(strict_total_on(k1, lt)) by {
        assert forall|x: (Seq<char>, PropView)| #[trigger] k1.contains(x) implies !lt(x, x) by {
            lemma_lex_irreflexive(x.0);
        }
        assert forall|x: (Seq<char>, PropView), y: (Seq<char>, PropView)| k1.contains(x) && k1.contains(y) && #[trigger] lt(x, y) implies !lt(y, x) by {
            lemma_lex_asymmetric(x.0, y.0);
        }
        assert forall|x: (Seq<char>, PropView), y: (Seq<char>, PropView)| #[trigger] k1.contains(x) && #[trigger] k1.contains(y) implies lt(x, y) || lt(y, x) || x == y by {
            lemma_lex_total(x.0, y.0);
            if x.0 == y.0 {
                assert(prop_of(p1, x.0) == Some(x.1));
                assert(prop_of(p1, y.0) == Some(y.1));
            }
        }
    }
    lemma_sorted_unique(k1, k2, lt);
}


/// The two maps hold the same value under every property the dump keeps.
pub open spec fn agree_kept(p1: Props, p2: Props) -> bool {
    forall|k: Seq<char>| !dump_excluded(k) ==> #[trigger] prop_of(p1, k) == prop_of(p2, k)
}

/// `s2` is `s1` but for properties the dump leaves out: the same nodes
/// (ids, labels) and edges (ends, labels), their properties agreeing on
/// every other key.
pub open spec fn same_but_excluded(s1: KeyspaceState, s2: KeyspaceState) -> bool {
    &&& s1.nodes().len() == s2.nodes().len()
    &&& s1.edges().len() == s2.edges().len()
    &&& forall|i: int| 0 <= i < s1.nodes().len() ==> (#[trigger] s1.nodes()[i]).id@ == s2.nodes()[i].id@
        && s1.nodes()[i].label@ == s2.nodes()[i].label@ && agree_kept(s1.nodes()[i].props, s2.nodes()[i].props)
    &&& forall|j: int| 0 <= j < s1.edges().len() ==> (#[trigger] s1.edges()[j]).2.src@ == s2.edges()[j].2.src@
        && s1.edges()[j].2.dst@ == s2.edges()[j].2.dst@ && s1.edges()[j].2.label@ == s2.edges()[j].2.label@
        && s1.edges()[j].2.props.wf() && s2.edges()[j].2.props.wf()
        && agree_kept(s1.edges()[j].2.props, s2.edges()[j].2.props)
}

proof fn lemma_endpoint_same(s1: KeyspaceState, s2: KeyspaceState, id: Seq<char>)
    requires
        s1.wf(),
        s2.wf(),
        same_but_excluded(s1, s2),
    ensures
        endpoint_qname(s1.nodes(), id) == endpoint_qname(s2.nodes(), id),
{
    s1.lemma_unique_ids();
    s2.lemma_unique_ids();
    let n1 = s1.nodes();
    let n2 = s2.nodes();
    reveal_strlit("qname");
    reveal_strlit("test_coverage");
    assert(!dump_excluded("qname"@)) by {
        assert("qname"@[0] != "test_coverage"@[0]);
    }
    if has_id(n1, id) {
        let i = choose|i: int| 0 <= i < n1.len() && #[trigger] n1[i].id@ == id;
        lemma_id_index_unique(n1, i);
        assert(n2[i].id@ == id);
        lemma_id_index_unique(n2, i);
        assert(agree_kept(n1[i].props, n2[i].props));
        assert(prop_of(n1[i].props, "qname"@) == prop_of(n2[i].props, "qname"@));
    } else {
        assert(!has_id(n2, id)) by {
            if has_id(n2, id) {
                let i = choose|i: int| 0 <= i < n2.len() && #[trigger] n2[i].id@ == id;
                assert(n1[i].id@ == id);
            }
        }
    }
}

proof fn lemma_dump_text_same(s1: KeyspaceState, s2: KeyspaceState, no: Seq<usize>, eo: Seq<usize>)
    requires
        s1.wf(),
        s2.wf(),
        same_but_excluded(s1, s2),
        forall|a: int| 0 <= a < no.len() ==> #[trigger] no[a] < s1.nodes().len(),
        forall|a: int| 0 <= a < eo.len() ==> #[trigger] eo[a] < s1.edges().len(),
    ensures
        dump_text(s1, no, eo) == dump_text(s2, no, eo),
{
    let l1 = no.map_values(|i: usize| node_line(s1.nodes()[i as int]));
    let l2 = no.map_values(|i: usize| node_line(s2.nodes()[i as int]));
    assert forall|a: int| 0 <= a < no.len() implies #[trigger] l1[a] == l2[a] by {
        let i = no[a] as int;
        assert(s1.nodes()[i].props.wf());
        assert(s2.nodes()[i].props.wf());
        assert(agree_kept(s1.nodes()[i].props, s2.nodes()[i].props));
        lemma_members_ignore_excluded(s1.nodes()[i].props, s2.nodes()[i].props);
    }
    assert(l1 =~= l2);
    let m1 = eo.map_values(|j: usize| edge_dump_line(s1, j as int));
    let m2 = eo.map_values(|j: usize| edge_dump_line(s2, j as int));
    assert forall|a: int| 0 <= a < eo.len() implies #[trigger] m1[a] == m2[a] by {
        let j = eo[a] as int;
        let e1 = s1.edges()[j].2;
        let e2 = s2.edges()[j].2;
        assert(agree_kept(e1.props, e2.props));
        lemma_members_ignore_excluded(e1.props, e2.props);
        lemma_endpoint_same(s1, s2, e1.src@);
        lemma_endpoint_same(s1, s2, e1.dst@);
    }
    assert(m1 =~= m2);
}

/// The canonical dump ignores the properties it leaves out: two keyspaces
/// that differ only in those have the same dump.
pub proof fn lemma_dump_ignores_excluded(s1: KeyspaceState, s2: KeyspaceState, t: Seq<char>)
    requires
        s1.wf(),
        s2.wf(),
        same_but_excluded(s1, s2),
    ensures
        is_canonical_dump(s1, t) == is_canonical_dump(s2, t),
{
    reveal_strlit("qname");
    reveal_strlit("test_coverage");
    assert(!dump_excluded("qname"@)) by {
        assert("qname"@[0] != "test_coverage"@[0]);
    }
    let nk1 = Seq::new(s1.nodes().len(), |i: int| node_sort_key(s1.nodes(), i));
    let nk2 = Seq::new(s2.nodes().len(), |i: int| node_sort_key(s2.nodes(), i));
    assert forall|i: int| 0 <= i < nk1.len() implies #[trigger] nk1[i] == nk2[i] by {
        assert(agree_kept(s1.nodes()[i].props, s2.nodes()[i].props));
        assert(prop_of(s1.nodes()[i].props, "qname"@) == prop_of(s2.nodes()[i].props, "qname"@));
    }
    assert(nk1 =~= nk2);
    let ek1 = Seq::new(s1.edges().len(), |j: int| edge_sort_key(s1, j));
    let ek2 = Seq::new(s2.edges().len(), |j: int| edge_sort_key(s2, j));
    assert forall|j: int| 0 <= j < ek1.len() implies #[trigger] ek1[j] == ek2[j] by {
        lemma_endpoint_same(s1, s2, s1.edges()[j].2.src@);
        lemma_endpoint_same(s1, s2, s1.edges()[j].2.dst@);
    }
    assert(ek1 =~= ek2);
    if is_canonical_dump(s1, t) {
        let (no, eo) = choose|n: Seq<usize>, e: Seq<usize>| is_sort_order(nk1, n) && is_sort_order(ek1, e) && #[trigger] dump_text(s1, n, e) == t;
        lemma_dump_text_same(s1, s2, no, eo);
        assert(is_sort_order(nk2, no) && is_sort_order(ek2, eo) && dump_text(s2, no, eo) == t);
    }
    if is_canonical_dump(s2, t) {
        let (no, eo) = choose|n: Seq<usize>, e: Seq<usize>| is_sort_order(nk2, n) && is_sort_order(ek2, e) && #[trigger] dump_text(s2, n, e) == t;
        lemma_dump_text_same(s1, s2, no, eo);
        assert(is_sort_order(nk1, no) && is_sort_order(ek1, eo) && dump_text(s1, no, eo) == t);
    }
}

/// The dump of a keyspace without nodes or edges is empty.
pub proof fn lemma_empty_dump(s: KeyspaceState, t: Seq<char>)
    requires
        s.nodes().len() == 0,
        s.edges().len() == 0,
        is_canonical_dump(s, t),
    ensures
        t.len() == 0,
{
    let nk = Seq::new(s.nodes().len(), |i: int| node_sort_key(s.nodes(), i));
    let ek = Seq::new(s.edges().len(), |j: int| edge_sort_key(s, j));
    let (no, eo) = choose|n: Seq<usize>, e: Seq<usize>| is_sort_order(nk, n) && is_sort_order(ek, e) && #[trigger] dump_text(s, n, e) == t;
    assert(no.map_values(|i: usize| node_line(s.nodes()[i as int])) + eo.map_values(|j: usize| edge_dump_line(s, j as int))
        =~= Seq::<Seq<char>>::empty());
}

/// The canonical dump depends on a keyspace's nodes and edges alone, not
/// on the indexes it keeps: two keyspaces holding the same nodes and edges
/// (whatever their index declarations) dump alike.
pub proof fn lemma_dump_independent_of_indexes(s1: KeyspaceState, s2: KeyspaceState, t: Seq<char>)
    requires
        s1.nodes() == s2.nodes(),
        s1.edges() == s2.edges(),
    ensures
        is_canonical_dump(s1, t) == is_canonical_dump(s2, t),
{
    let nk1 = Seq::new(s1.nodes().len(), |i: int| node_sort_key(s1.nodes(), i));
    let nk2 = Seq::new(s2.nodes().len(), |i: int| node_sort_key(s2.nodes(), i));
    let ek1 = Seq::new(s1.edges().len(), |j: int| edge_sort_key(s1, j));
    let ek2 = Seq::new(s2.edges().len(), |j: int| edge_sort_key(s2, j));
    assert(nk1 =~= nk2);
    assert(ek1 =~= ek2);
    if is_canonical_dump(s1, t) {
        let (no, eo) = choose|n: Seq<usize>, e: Seq<usize>| is_sort_order(nk1, n) && is_sort_order(ek1, e) && #[trigger] dump_text(s1, n, e) == t;
        assert(eo.map_values(|j: usize| edge_dump_line(s1, j as int)) =~= eo.map_values(|j: usize| edge_dump_line(s2, j as int)));
        assert(dump_text(s2, no, eo) == t);
    }
    if is_canonical_dump(s2, t) {
        let (no, eo) = choose|n: Seq<usize>, e: Seq<usize>| is_sort_order(nk2, n) && is_sort_order(ek2, e) && #[trigger] dump_text(s2, n, e) == t;
        assert(eo.map_values(|j: usize| edge_dump_line(s1, j as int)) =~= eo.map_values(|j: usize| edge_dump_line(s2, j as int)));
        assert(dump_text(s1, no, eo) == t);
    }
}

/// The text part of a sort key.
pub open spec fn key_text(k: (Seq<char>, Seq<char>, Seq<char>, usize)) -> (Seq<char>, Seq<char>, Seq<char>) {
    (k.0, k.1, k.2)
}

/// No two keys share their text part.
pub open spec fn distinct_key_texts(k: Seq<(Seq<char>, Seq<char>, Seq<char>, usize)>) -> bool {
    forall|x: int, y: int| 0 <= x < y < k.len() ==> key_text(#[trigger] k[x]) != key_text(#[trigger] k[y])
}

/// Ordering of `(key text, line)` pairs by key text.
pub open spec fn text_line_lt(x: ((Seq<char>, Seq<char>, Seq<char>), Seq<char>), y: ((Seq<char>, Seq<char>, Seq<char>), Seq<char>)) -> bool {
    lex3(x.0, y.0)
}

proof fn lemma_order_pairs_sorted(k: Seq<(Seq<char>, Seq<char>, Seq<char>, usize)>, l: Seq<Seq<char>>, o: Seq<usize>)
    requires
        is_sort_order(k, o),
        l.len() == k.len(),
        distinct_key_texts(k),
    ensures
        sorted_by(o.map_values(|i: usize| (key_text(k[i as int]), l[i as int])),
            |x: ((Seq<char>, Seq<char>, Seq<char>), Seq<char>), y: ((Seq<char>, Seq<char>, Seq<char>), Seq<char>)| text_line_lt(x, y)),
{
    let a = o.map_values(|i: usize| (key_text(k[i as int]), l[i as int]));
    let lt = |x: ((Seq<char>, Seq<char>, Seq<char>), Seq<char>), y: ((Seq<char>, Seq<char>, Seq<char>), Seq<char>)| text_line_lt(x, y);
    assert forall|x: int, y: int| 0 <= x < y < a.len() implies #[trigger] lt(a[x], a[y]) by {
        let i = o[x] as int;
        let j = o[y] as int;
        assert(LineKey::key_lt(k[i], k[j]));
        if i == j {
            LineKey::lemma_key_irreflexive(k[i]);
        } else if i < j {
            assert(key_text(k[i]) != key_text(k[j]));
        } else {
            assert(key_text(k[j]) != key_text(k[i]));
        }
    }
}

/// Two sort orders over keys that are a permutation `perm` of one another
/// (with lines following their keys) list the same lines, when no two keys
/// share their text.
pub proof fn lemma_sorted_lines_equal(
    k1: Seq<(Seq<char>, Seq<char>, Seq<char>, usize)>,
    l1: Seq<Seq<char>>,
    o1: Seq<usize>,
    k2: Seq<(Seq<char>, Seq<char>, Seq<char>, usize)>,
    l2: Seq<Seq<char>>,
    o2: Seq<usize>,
    perm: Seq<usize>,
)
    requires
        is_sort_order(k1, o1),
        is_sort_order(k2, o2),
        l1.len() == k1.len(),
        l2.len() == k2.len(),
        perm.len() == k2.len(),
        k1.len() == k2.len(),
        k1.len() <= usize::MAX,
        distinct_key_texts(k1),
        forall|p: int| 0 <= p < perm.len() ==> #[trigger] perm[p] < k1.len(),
        forall|p: int, q: int| 0 <= p < q < perm.len() ==> #[trigger] perm[p] != #[trigger] perm[q],
        forall|i: usize| i < k1.len() ==> #[trigger] perm.contains(i),
        forall|p: int| 0 <= p < perm.len() ==> key_text(#[trigger] k2[p]) == key_text(k1[perm[p] as int])
            && l2[p] == l1[perm[p] as int],
    ensures
        o1.map_values(|i: usize| l1[i as int]) == o2.map_values(|p: usize| l2[p as int]),
{
    assert(distinct_key_texts(k2)) by {
        assert forall|x: int, y: int| 0 <= x < y < k2.len() implies key_text(#[trigger] k2[x]) != key_text(#[trigger] k2[y]) by {
            let i = perm[x] as int;
            let j = perm[y] as int;
            assert(i != j);
            if i < j {
                assert(key_text(k1[i]) != key_text(k1[j]));
            } else {
                assert(key_text(k1[j]) != key_text(k1[i]));
            }
        }
    }
    lemma_order_pairs_sorted(k1, l1, o1);
    lemma_order_pairs_sorted(k2, l2, o2);
    let a = o1.map_values(|i: usize| (key_text(k1[i as int]), l1[i as int]));
    let b = o2.map_values(|p: usize| (key_text(k2[p as int]), l2[p as int]));
    let lt = |x: ((Seq<char>, Seq<char>, Seq<char>), Seq<char>), y: ((Seq<char>, Seq<char>, Seq<char>), Seq<char>)| text_line_lt(x, y);
    assert forall|x: ((Seq<char>, Seq<char>, Seq<char>), Seq<char>)| a.contains(x) <==> b.contains(x) by {
        if a.contains(x) {
            let u = choose|u: int| 0 <= u < a.len() && a[u] == x;
            let i = o1[u];
            assert(i < k1.len());
            assert(perm.contains(i));
            let p = choose|p: int| 0 <= p < perm.len() && perm[p] == i;
            assert(0 <= p < k2.len());
            let pu = p as usize;
            assert(pu as int == p);
            assert(pu < k2.len());
            assert(o2.contains(pu));
            let v = choose|v: int| 0 <= v < o2.len() && o2[v] == p as usize;
            assert(o2[v] as int == p);
            assert(b[v] == (key_text(k2[p]), l2[p]));
            assert(b[v] == x);
        }
        if b.contains(x) {
            let v = choose|v: int| 0 <= v < b.len() && b[v] == x;
            let p = o2[v] as int;
            let i = perm[p];
            assert(i < k1.len());
            assert(o1.contains(i));
            let u = choose|u: int| 0 <= u < o1.len() && o1[u] == i;
            assert(a[u] == x);
        }
    }
    assert(strict_total_on(a, lt)) by {
        assert forall|x: ((Seq<char>, Seq<char>, Seq<char>), Seq<char>)| #[trigger] a.contains(x) implies !lt(x, x) by {
            lemma_lex3_irreflexive(x.0);
        }
        assert forall|x: ((Seq<char>, Seq<char>, Seq<char>), Seq<char>), y: ((Seq<char>, Seq<char>, Seq<char>), Seq<char>)| a.contains(x) && a.contains(y) && #[trigger] lt(x, y) implies !lt(y, x) by {
            if lt(y, x) {
                lemma_lex3_transitive(x.0, y.0, x.0);
                lemma_lex3_irreflexive(x.0);
            }
        }
        assert forall|x: ((Seq<char>, Seq<char>, Seq<char>), Seq<char>), y: ((Seq<char>, Seq<char>, Seq<char>), Seq<char>)| #[trigger] a.contains(x) && #[trigger] a.contains(y) implies lt(x, y) || lt(y, x) || x == y by {
            lemma_lex3_total(x.0, y.0);
            if x.0 == y.0 {
                let u = choose|u: int| 0 <= u < a.len() && a[u] == x;
                let w = choose|w: int| 0 <= w < a.len() && a[w] == y;
                let i = o1[u] as int;
                let j = o1[w] as int;
                if i < j {
                    assert(key_text(k1[i]) != key_text(k1[j]));
                } else if j < i {
                    assert(key_text(k1[j]) != key_text(k1[i]));
                }
            }
        }
    }
    lemma_sorted_unique(a, b, lt);
    let r1 = o1.map_values(|i: usize| l1[i as int]);
    let r2 = o2.map_values(|p: usize| l2[p as int]);
    assert forall|u: int| 0 <= u < r1.len() implies r1[u] == r2[u] by {
        assert(a[u].1 == r1[u]);
        assert(b[u].1 == r2[u]);
    }
    assert(r1 =~= r2);
}
} // verus!
