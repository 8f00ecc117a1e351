//! Markdown references to items: which scanned documents mention an item's
//! `name` or `qname` as a whole word, and the `:RfcDoc` nodes and
//! `REFERENCED_BY` edges that record it.
use vstd::prelude::*;

use crate::fact::{get_prop, prop_of, Edge, Node, PropValue, PropView};
use crate::graph::{applied_edges, apply_nodes, increasing, key_set, label_bucket_insert, KeyspaceState};
use crate::sorted::{Keyed, SortedMap};
use crate::text::{push_str, chars_of, lemma_lead_ws, skip_leading_ws, string_from_chars, trim, trim_bounds, trim_start};

verus! {

/// Whether byte `b` is a word character: ASCII alphanumeric or `_`.
pub open spec fn word_byte(b: u8) -> bool {
    ||| (0x30 <= b <= 0x39)
    ||| (0x41 <= b <= 0x5A)
    ||| (0x61 <= b <= 0x7A)
    ||| b == 0x5F
}

/// Whether character `c` is a word character (non-ASCII characters never
/// are).
pub open spec fn word_char(c: char) -> bool {
    (c as u32) < 0x80 && word_byte(c as u32 as u8)
}

/// Whether `b` is an ASCII alphanumeric byte or `_`.
pub fn is_word_char(b: u8) -> (r: bool)
    ensures
        r == word_byte(b),
{
    (0x30 <= b && b <= 0x39) || (0x41 <= b && b <= 0x5A) || (0x61 <= b && b <= 0x7A) || b == 0x5F
}

fn is_word_character(c: char) -> (r: bool)
    ensures
        r == word_char(c),
{
    let u = c as u32;
    if u < 0x80 {
        is_word_char(u as u8)
    } else {
        false
    }
}

/// `needle` occurs in `hay` at position `i`.
pub open spec fn occurs_at(hay: Seq<char>, needle: Seq<char>, i: int) -> bool {
    0 <= i && i + needle.len() <= hay.len() && hay.subrange(i, i + needle.len()) == needle
}

/// `needle` occurs in `hay` at position `i` with no word character on
/// either side.
pub open spec fn whole_word_at(hay: Seq<char>, needle: Seq<char>, i: int) -> bool {
    &&& occurs_at(hay, needle, i)
    &&& (i == 0 || !word_char(hay[i - 1]))
    &&& (i + needle.len() == hay.len() || !word_char(hay[i + needle.len()]))
}

/// `needle` (non-empty) occurs in `hay` as a whole word.
pub open spec fn has_whole_word(hay: Seq<char>, needle: Seq<char>) -> bool {
    needle.len() > 0 && exists|i: int| whole_word_at(hay, needle, i)
}

/// An ASCII letter, an ASCII digit or `_`: what joins a name to its
/// neighbours.
pub open spec fn joins_word(c: char) -> bool {
    let u = c as u32;
    ||| ('0' as u32) <= u <= ('9' as u32)
    ||| ('A' as u32) <= u <= ('Z' as u32)
    ||| ('a' as u32) <= u <= ('z' as u32)
    ||| u == ('_' as u32)
}

proof fn lemma_word_char_joins(c: char)
    ensures
        word_char(c) == joins_word(c),
{
    let u = c as u32;
    assert(u < 0x80 ==> (u as u8) as u32 == u) by (bit_vector);
}

/// A whole-word occurrence is an occurrence whose neighbours, where there
/// are any, are neither ASCII letters, ASCII digits nor `_`; so a name
/// glued to `_`, a letter or a digit on either side is not referenced
/// there.
pub proof fn lemma_whole_word_neighbours(hay: Seq<char>, needle: Seq<char>, i: int)
    ensures
        whole_word_at(hay, needle, i) <==> {
            &&& occurs_at(hay, needle, i)
            &&& (i == 0 || !joins_word(hay[i - 1]))
            &&& (i + needle.len() == hay.len() || !joins_word(hay[i + needle.len()]))
        },
{
    if occurs_at(hay, needle, i) {
        if i > 0 {
            lemma_word_char_joins(hay[i - 1]);
        }
        if i + needle.len() < hay.len() {
            lemma_word_char_joins(hay[i + needle.len()]);
        }
    }
}

/// A name glued to `_` is no whole word: `X` is not a whole word of `a_X`
/// nor of `X_b`, wherever such a neighbour stands.
pub proof fn lemma_underscore_is_a_word_char(hay: Seq<char>, needle: Seq<char>, i: int)
    requires
        occurs_at(hay, needle, i),
        (i > 0 && hay[i - 1] == '_') || (i + needle.len() < hay.len() && hay[i + needle.len()] == '_'),
    ensures
        !whole_word_at(hay, needle, i),
{
    lemma_whole_word_neighbours(hay, needle, i);
}

/// Whether `needle` occurs at position `i` of `hay`.
fn occurs_at_exec(hay: &Vec<char>, needle: &Vec<char>, i: usize) -> (r: bool)
    requires
        i + needle@.len() <= hay@.len(),
    ensures
        r == occurs_at(hay@, needle@, i as int),
{
    let hl = hay.len();
    let mut k: usize = 0;
    while k < needle.len()
        invariant
            k <= needle@.len(),
            hl == hay@.len(),
            i + needle@.len() <= hay@.len(),
            forall|x: int| 0 <= x < k ==> hay@[i + x] == #[trigger] needle@[x],
        decreases needle@.len() - k,
    {
        if hay[i + k] != needle[k] {
            proof {
                assert(hay@.subrange(i as int, i + needle@.len())[k as int] != needle@[k as int]);
            }
            return false;
        }
        k = k + 1;
    }
    proof {
        assert(hay@.subrange(i as int, i + needle@.len()) =~= needle@);
    }
    true
}

/// Whether `needle` occurs in `haystack` as a whole word: some occurrence
/// has no ASCII alphanumeric or `_` character on either side. An empty
/// needle never matches.
pub fn contains_whole_word(haystack: &str, needle: &str) -> (r: bool)
    ensures
        r == has_whole_word(haystack@, needle@),
{
    let h = chars_of(haystack);
    let n = chars_of(needle);
    if n.len() == 0 {
        return false;
    }
    if n.len() > h.len() {
        proof {
            assert forall|i: int| !whole_word_at(h@, n@, i) by {}
        }
        return false;
    }
    let last = h.len() - n.len();
    let mut start: usize = 0;
    while start <= last
        invariant
            h@ == haystack@,
            n@ == needle@,
            n@.len() > 0,
            h@.len() == h.len(),
            last == h@.len() - n@.len(),
            start <= last + 1,
            forall|j: int| 0 <= j < start ==> !#[trigger] whole_word_at(h@, n@, j),
        decreases last + 1 - start,
    {
        if occurs_at_exec(&h, &n, start) {
            let left_ok = start == 0 || !is_word_character(h[start - 1]);
            let end = start + n.len();
            let right_ok = end == h.len() || !is_word_character(h[end]);
            if left_ok && right_ok {
                proof {
                    assert(whole_word_at(h@, n@, start as int));
                }
                return true;
            }
        }
        start = start + 1;
    }
    proof {
        assert forall|i: int| !whole_word_at(h@, n@, i) by {
            if i > last {
                assert(!occurs_at(h@, n@, i));
            }
        }
    }
    false
}

/// The title a line gives: after leading whitespace, `# ` and then a
/// heading that is not blank once trimmed.
pub open spec fn line_title(l: Seq<char>) -> Option<Seq<char>> {
    let t = trim_start(l);
    if t.len() >= 2 && t[0] == '#' && t[1] == ' ' && trim(t.skip(2)).len() > 0 {
        Some(trim(t.skip(2)))
    } else {
        None
    }
}

/// The end of the line starting at `p`: the next `\n`, or the end.
pub open spec fn line_end(s: Seq<char>, p: int) -> int
    decreases s.len() - p,
{
    if p >= s.len() {
        s.len() as int
    } else if s[p] == '\n' {
        p
    } else {
        line_end(s, p + 1)
    }
}

/// The title of the first line at or after line start `p` that has one.
pub open spec fn title_from(s: Seq<char>, p: int) -> Option<Seq<char>>
    decreases s.len() + 1 - p,
{
    if p < 0 || p > s.len() {
        None
    } else {
        match line_title(s.subrange(p, line_end(s, p))) {
            Some(t) => Some(t),
            None => if line_end(s, p) < s.len() {
                proof {
                    lemma_line_end(s, p);
                }
                title_from(s, line_end(s, p) + 1)
            } else {
                None
            },
        }
    }
}

pub proof fn lemma_line_end(s: Seq<char>, p: int)
    requires
        0 <= p <= s.len(),
    ensures
        p <= line_end(s, p) <= s.len(),
        line_end(s, p) < s.len() ==> s[line_end(s, p)] == '\n',
        forall|k: int| p <= k < line_end(s, p) ==> s[k] != '\n',
    decreases s.len() - p,
{
    if p < s.len() && s[p] != '\n' {
        lemma_line_end(s, p + 1);
    }
}

/// The title a line gives, if any.
fn title_of_line(line: &Vec<char>) -> (r: Option<String>)
    ensures
        match r {
            Some(t) => line_title(line@) == Some(t@),
            None => line_title(line@) is None,
        },
{
    let s = skip_leading_ws(line);
    proof {
        lemma_lead_ws(line@);
    }
    let t = line.as_slice().split_at(s).1;
    proof {
        assert(t@ =~= trim_start(line@));
    }
    if t.len() >= 2 && t[0] == '#' && t[1] == ' ' {
        let rest_slice = t.split_at(2).1;
        let mut rest: Vec<char> = Vec::new();
        let mut k: usize = 0;
        while k < rest_slice.len()
            invariant
                k <= rest_slice@.len(),
                rest@ == rest_slice@.take(k as int),
            decreases rest_slice@.len() - k,
        {
            rest.push(rest_slice[k]);
            proof {
                assert(rest_slice@.take(k + 1) =~= rest_slice@.take(k as int).push(rest_slice@[k as int]));
            }
            k = k + 1;
        }
        proof {
            assert(rest_slice@.take(k as int) =~= rest_slice@);
            assert(rest@ =~= t@.skip(2));
        }
        let (a, b) = trim_bounds(&rest);
        if a < b {
            let piece = rest.as_slice().split_at(b).0.split_at(a).1;
            proof {
                assert(piece@ =~= rest@.subrange(a as int, b as int));
            }
            Some(string_from_chars(piece))
        } else {
            None
        }
    } else {
        None
    }
}

/// The first `# ` heading of a markdown text, trimmed: `##` headings,
/// underlined headings and blank headings do not count.
pub fn extract_title(content: &str) -> (r: Option<String>)
    ensures
        match r {
            Some(t) => title_from(content@, 0) == Some(t@),
            None => title_from(content@, 0) is None,
        },
{
    let s = chars_of(content);
    let mut p: usize = 0;
    while p <= s.len()
        invariant
            s@ == content@,
            p <= s@.len() + 1,
            title_from(s@, 0) == title_from(s@, p as int),
        decreases s@.len() + 1 - p,
    {
        let mut e = p;
        while e < s.len() && s[e] != '\n'
            invariant
                p <= e <= s@.len(),
                line_end(s@, p as int) == line_end(s@, e as int),
            decreases s@.len() - e,
        {
            e = e + 1;
        }
        proof {
            lemma_line_end(s@, p as int);
        }
        let line_slice = s.as_slice().split_at(e).0.split_at(p).1;
        let mut line: Vec<char> = Vec::new();
        let mut k: usize = 0;
        while k < line_slice.len()
            invariant
                k <= line_slice@.len(),
                line@ == line_slice@.take(k as int),
            decreases line_slice@.len() - k,
        {
            line.push(line_slice[k]);
            proof {
                assert(line_slice@.take(k + 1) =~= line_slice@.take(k as int).push(line_slice@[k as int]));
            }
            k = k + 1;
        }
        proof {
            assert(line_slice@.take(k as int) =~= line_slice@);
            assert(line@ =~= s@.subrange(p as int, e as int));
        }
        match title_of_line(&line) {
            Some(t) => return Some(t),
            None => {},
        }
        if e >= s.len() {
            return None;
        }
        p = e + 1;
    }
    None
}

} // verus!

verus! {

/// One scanned markdown file: its workspace-relative path, its title and
/// its text.
pub struct ScannedFile {
    pub path: String,
    pub title: Option<String>,
    pub content: String,
}

/// One `:Item` as the matcher sees it; absent properties are empty.
pub struct ItemRow {
    pub node_id: String,
    pub qname: String,
    pub name: String,
    pub file: String,
}

/// The text of string property `k` of `n`, or nothing.
pub open spec fn prop_text(n: Node, k: Seq<char>) -> Seq<char> {
    match prop_of(n.props, k) {
        Some(PropView::Str(s)) => s,
        _ => Seq::empty(),
    }
}

/// The matcher's view of node `n`.
pub open spec fn item_row_of(n: Node) -> (Seq<char>, Seq<char>, Seq<char>, Seq<char>) {
    (n.id@, prop_text(n, "qname"@), prop_text(n, "name"@), prop_text(n, "file"@))
}

impl ItemRow {
    pub open spec fn view(&self) -> (Seq<char>, Seq<char>, Seq<char>, Seq<char>) {
        (self.node_id@, self.qname@, self.name@, self.file@)
    }
}

/// `content` mentions the item's name, or its qname when that differs
/// from the name, as a whole word.
pub open spec fn referenced(item: (Seq<char>, Seq<char>, Seq<char>, Seq<char>), content: Seq<char>) -> bool {
    ||| (item.2.len() > 0 && has_whole_word(content, item.2))
    ||| (item.1.len() > 0 && item.1 != item.2 && has_whole_word(content, item.1))
}

/// File `f` references the item, which is not defined in `f` itself.
pub open spec fn matches_file(item: (Seq<char>, Seq<char>, Seq<char>, Seq<char>), f: ScannedFile) -> bool {
    item.3 != f.path@ && referenced(item, f.content@)
}


/// Whether `content` references the item by name or qname.
pub fn item_is_referenced(item: &ItemRow, content: &str) -> (r: bool)
    ensures
        r == referenced(item.view(), content@),
{
    (!item.name.as_str().is_empty() && contains_whole_word(content, item.name.as_str())) || (!item.qname.as_str().is_empty()
        && !crate::text::str_eq(item.qname.as_str(), item.name.as_str()) && contains_whole_word(content, item.qname.as_str()))
}

/// The indexes of the files that reference the item, ascending.
pub fn item_matches(item: &ItemRow, scanned: &Vec<ScannedFile>) -> (r: Vec<usize>)
    ensures
        increasing(r@),
        forall|f: usize| #[trigger] r@.contains(f) <==> f < scanned@.len() && matches_file(item.view(), scanned@[f as int]),
{
    let mut out: Vec<usize> = Vec::new();
    let mut idx: usize = 0;
    while idx < scanned.len()
        invariant
            idx <= scanned@.len(),
            increasing(out@),
            forall|a: int| 0 <= a < out@.len() ==> #[trigger] out@[a] < idx,
            forall|f: usize| #[trigger] out@.contains(f) <==> f < idx && matches_file(item.view(), scanned@[f as int]),
        decreases scanned@.len() - idx,
    {
        let file = &scanned[idx];
        if !crate::text::str_eq(item.file.as_str(), file.path.as_str()) && item_is_referenced(item, file.content.as_str()) {
            let ghost before = out@;
            out.push(idx);
            proof {
                assert forall|f: usize| #[trigger] out@.contains(f) <==> f < idx + 1 && matches_file(item.view(), scanned@[f as int]) by {
                    if f == idx {
                        assert(out@[before.len() as int] == f);
                    }
                    if before.contains(f) {
                        let a = choose|a: int| 0 <= a < before.len() && before[a] == f;
                        assert(out@[a] == f);
                    }
                    if out@.contains(f) && f != idx {
                        let a = choose|a: int| 0 <= a < out@.len() && out@[a] == f;
                        assert(before[a] == f);
                    }
                }
            }
        }
        idx = idx + 1;
    }
    out
}

/// The value of string property `k` of `n`, or an empty string.
pub fn prop_str(n: &Node, k: &str) -> (r: String)
    requires
        n.props.wf(),
    ensures
        r@ == prop_text(*n, k@),
{
    match get_prop(&n.props, k) {
        Some(v) => match v.as_str() {
            Some(s) => s.to_owned(),
            None => String::new(),
        },
        None => String::new(),
    }
}

/// The matcher's row for node `n`.
pub fn project_item_row(n: &Node) -> (r: ItemRow)
    requires
        n.props.wf(),
    ensures
        r.view() == item_row_of(*n),
{
    ItemRow {
        node_id: n.id.clone(),
        qname: prop_str(n, "qname"),
        name: prop_str(n, "name"),
        file: prop_str(n, "file"),
    }
}

/// The label of the items documents are matched against.
pub const ITEM_LABEL: &'static str = "Item";

/// An `:Item` node the matcher considers: one with a name or a qname.
pub open spec fn matchable(n: Node) -> bool {
    n.label@ == ITEM_LABEL@ && (item_row_of(n).1.len() > 0 || item_row_of(n).2.len() > 0)
}

/// `row` is the row of some matchable node of `s`.
pub open spec fn row_of_some_item(s: KeyspaceState, row: (Seq<char>, Seq<char>, Seq<char>, Seq<char>)) -> bool {
    exists|i: int| 0 <= i < s.nodes().len() && matchable(#[trigger] s.nodes()[i]) && row == item_row_of(s.nodes()[i])
}

/// The rows of the `:Item` nodes that have a name or a qname, by node
/// index.
pub fn collect_items(state: &KeyspaceState) -> (r: Vec<ItemRow>)
    requires
        state.wf(),
    ensures
        forall|k: int| 0 <= k < r@.len() ==> row_of_some_item(*state, #[trigger] r@[k].view()),
        forall|i: int| 0 <= i < state.nodes().len() && matchable(#[trigger] state.nodes()[i]) ==> exists|k: int|
            0 <= k < r@.len() && r@[k].view() == item_row_of(state.nodes()[i]),
        r@.len() <= state.nodes().len(),
{
    let label = ITEM_LABEL.to_owned();
    let idxs = state.nodes_with_label(&label);
    proof {
        assert forall|a: int| 0 <= a < idxs@.len() implies #[trigger] idxs@[a] < state.nodes().len() by {
            assert(idxs@.contains(idxs@[a]));
        }
        lemma_increasing_len(idxs@, state.nodes().len());
    }
    let mut out: Vec<ItemRow> = Vec::new();
    // `src[k]` is the node `out[k]` was projected from.
    let ghost mut src: Seq<int> = Seq::empty();
    let mut j: usize = 0;
    while j < idxs.len()
        invariant
            j <= idxs@.len(),
            label@ == ITEM_LABEL@,
            state.wf(),
            idxs@.len() <= state.nodes().len(),
            forall|i: usize| #[trigger] idxs@.contains(i) <==> state.label_members(label@).contains(i),
            out@.len() <= j,
            src.len() == out@.len(),
            forall|k: int| 0 <= k < out@.len() ==> 0 <= #[trigger] src[k] < state.nodes().len() && matchable(state.nodes()[src[k]])
                && out@[k].view() == item_row_of(state.nodes()[src[k]]),
            forall|a: int| 0 <= a < j && matchable(state.nodes()[idxs@[a] as int]) ==> exists|k: int|
                0 <= k < out@.len() && #[trigger] src[k] == idxs@[a] as int,
        decreases idxs@.len() - j,
    {
        let i = idxs[j];
        proof {
            assert(idxs@.contains(i));
            assert(state.label_members(label@).contains(i));
        }
        let node = state.node(i);
        let row = project_item_row(node);
        if !row.qname.as_str().is_empty() || !row.name.as_str().is_empty() {
            let ghost before = src;
            out.push(row);
            proof {
                src = src.push(i as int);
                assert(matchable(state.nodes()[i as int]));
                assert forall|a: int| 0 <= a < j + 1 && matchable(state.nodes()[idxs@[a] as int]) implies exists|k: int|
                    0 <= k < out@.len() && #[trigger] src[k] == idxs@[a] as int by {
                    if a < j {
                        let k = choose|k: int| 0 <= k < before.len() && #[trigger] before[k] == idxs@[a] as int;
                        assert(src[k] == before[k]);
                    } else {
                        assert(src[before.len() as int] == i as int);
                    }
                }
            }
        } else {
            proof {
                assert forall|a: int| 0 <= a < j + 1 && matchable(state.nodes()[idxs@[a] as int]) implies exists|k: int|
                    0 <= k < out@.len() && #[trigger] src[k] == idxs@[a] as int by {
                    if a == j {
                        assert(!matchable(state.nodes()[i as int]));
                    }
                }
            }
        }
        j = j + 1;
    }
    proof {
        assert forall|k: int| 0 <= k < out@.len() implies row_of_some_item(*state, #[trigger] out@[k].view()) by {
            let i = src[k];
            assert(0 <= i < state.nodes().len() && matchable(state.nodes()[i]) && out@[k].view() == item_row_of(state.nodes()[i]));
        }
        assert forall|i: int| 0 <= i < state.nodes().len() && matchable(#[trigger] state.nodes()[i]) implies exists|k: int|
            0 <= k < out@.len() && out@[k].view() == item_row_of(state.nodes()[i]) by {
            assert(state.label_members(label@).contains(i as usize));
            assert(idxs@.contains(i as usize));
            let a = choose|a: int| 0 <= a < idxs@.len() && idxs@[a] == i as usize;
            assert(matchable(state.nodes()[idxs@[a] as int]));
            let k = choose|k: int| 0 <= k < out@.len() && #[trigger] src[k] == idxs@[a] as int;
            assert(out@[k].view() == item_row_of(state.nodes()[i]));
        }
    }
    out
}

/// A strictly increasing sequence of indexes below `n` has at most `n`
/// elements.
pub proof fn lemma_increasing_len(v: Seq<usize>, n: nat)
    requires
        increasing(v),
        forall|a: int| 0 <= a < v.len() ==> #[trigger] v[a] < n,
    ensures
        v.len() <= n,
{
    if v.len() > 0 {
        assert forall|a: int| 0 <= a < v.len() implies #[trigger] v[a] >= a by {
            lemma_increasing_at_least(v, a);
        }
        assert(v[v.len() - 1] >= v.len() - 1);
    }
}

proof fn lemma_increasing_at_least(v: Seq<usize>, a: int)
    requires
        increasing(v),
        0 <= a < v.len(),
    ensures
        v[a] >= a,
    decreases a,
{
    if a > 0 {
        lemma_increasing_at_least(v, a - 1);
    }
}

} // verus!

verus! {

/// Item node id → the indexes of the files that reference it.
pub type References = SortedMap<String, SortedMap<usize, ()>>;

/// The files that reference some item of `items[..k]` with node id `id`.
pub open spec fn refs_upto(items: Seq<ItemRow>, scanned: Seq<ScannedFile>, id: Seq<char>, k: int) -> Set<usize> {
    Set::new(|f: usize| f < scanned.len() && exists|x: int| 0 <= x < k && #[trigger] items[x].node_id@ == id
        && matches_file(items[x].view(), scanned[f as int]))
}

/// The files that reference some item with node id `id`.
pub open spec fn refs_of(items: Seq<ItemRow>, scanned: Seq<ScannedFile>, id: Seq<char>) -> Set<usize> {
    refs_upto(items, scanned, id, items.len() as int)
}

/// `r` maps each referenced item id to exactly the files that reference
/// it, and holds no other id.
pub open spec fn is_references(r: References, items: Seq<ItemRow>, scanned: Seq<ScannedFile>) -> bool {
    &&& r.wf()
    &&& forall|id: Seq<char>| #[trigger] r.has(id) ==> r.lookup(id)->0.wf() && key_set(r.lookup(id)->0) == refs_of(items, scanned, id)
    &&& forall|id: Seq<char>| #[trigger] r.has(id) <==> exists|f: usize| #[trigger] refs_of(items, scanned, id).contains(f)
}

/// The files each item is referenced by, grouped by item node id.
pub fn find_references(items: &Vec<ItemRow>, scanned: &Vec<ScannedFile>) -> (r: References)
    ensures
        is_references(r, items@, scanned@),
{
    let mut acc: References = SortedMap::new();
    let mut k: usize = 0;
    while k < items.len()
        invariant
            k <= items@.len(),
            acc.wf(),
            forall|id: Seq<char>| #[trigger] acc.has(id) ==> acc.lookup(id)->0.wf()
                && key_set(acc.lookup(id)->0) == refs_upto(items@, scanned@, id, k as int),
            forall|id: Seq<char>| #[trigger] acc.has(id) <==> exists|f: usize| #[trigger] refs_upto(items@, scanned@, id, k as int).contains(f),
        decreases items@.len() - k,
    {
        let item = &items[k];
        let ms = item_matches(item, scanned);
        let ghost id0 = item.node_id@;
        let ghost pre = acc;
        let mut t: usize = 0;
        while t < ms.len()
            invariant
                t <= ms@.len(),
                id0 == item.node_id@,
                item == &items@[k as int],
                k < items@.len(),
                forall|f: usize| #[trigger] ms@.contains(f) <==> f < scanned@.len() && matches_file(item.view(), scanned@[f as int]),
                acc.wf(),
                forall|id: Seq<char>| #[trigger] acc.has(id) ==> acc.lookup(id)->0.wf(),
                forall|id: Seq<char>| id != id0 ==> (#[trigger] acc.has(id) == pre.has(id) && acc.lookup(id) == pre.lookup(id)),
                acc.has(id0) == (pre.has(id0) || t > 0),
                acc.has(id0) ==> key_set(acc.lookup(id0)->0) == (if pre.has(id0) {
                    key_set(pre.lookup(id0)->0)
                } else {
                    Set::empty()
                }) + ms@.take(t as int).to_set(),
            decreases ms@.len() - t,
        {
            let ghost before = acc;
            label_bucket_insert(&mut acc, &item.node_id, ms[t]);
            proof {
                assert(ms@.take(t + 1) =~= ms@.take(t as int).push(ms@[t as int]));
                crate::elems::lemma_push_contains(ms@.take(t as int), ms@[t as int]);
                assert(ms@.take(t + 1).to_set() =~= ms@.take(t as int).to_set().insert(ms@[t as int]));
                if before.has(id0) {
                    assert(key_set(acc.lookup(id0)->0) =~= (if pre.has(id0) {
                        key_set(pre.lookup(id0)->0)
                    } else {
                        Set::empty()
                    }) + ms@.take(t + 1).to_set());
                } else {
                    assert(!pre.has(id0) && t == 0);
                    assert(ms@.take(0).to_set() =~= Set::<usize>::empty());
                    assert(key_set(acc.lookup(id0)->0) =~= Set::<usize>::empty() + ms@.take(t + 1).to_set());
                }
            }
            t = t + 1;
        }
        proof {
            assert(ms@.take(t as int) =~= ms@);
            let mset = ms@.to_set();
            assert forall|id: Seq<char>| #[trigger] refs_upto(items@, scanned@, id, k + 1) == if id == id0 {
                refs_upto(items@, scanned@, id, k as int) + mset
            } else {
                refs_upto(items@, scanned@, id, k as int)
            } by {
                assert forall|f: usize| #[trigger] refs_upto(items@, scanned@, id, k + 1).contains(f) == (if id == id0 {
                    refs_upto(items@, scanned@, id, k as int) + mset
                } else {
                    refs_upto(items@, scanned@, id, k as int)
                }).contains(f) by {
                    if refs_upto(items@, scanned@, id, k + 1).contains(f) {
                        let x = choose|x: int| 0 <= x < k + 1 && #[trigger] items@[x].node_id@ == id
                            && matches_file(items@[x].view(), scanned@[f as int]);
                        if x == k {
                            assert(ms@.contains(f));
                        }
                    }
                    if id == id0 && mset.contains(f) {
                        assert(ms@.contains(f));
                        assert(items@[k as int].node_id@ == id);
                    }
                }
                assert(refs_upto(items@, scanned@, id, k + 1) =~= if id == id0 {
                    refs_upto(items@, scanned@, id, k as int) + mset
                } else {
                    refs_upto(items@, scanned@, id, k as int)
                });
            }
            assert forall|id: Seq<char>| #[trigger] acc.has(id) implies acc.lookup(id)->0.wf()
                && key_set(acc.lookup(id)->0) == refs_upto(items@, scanned@, id, k + 1) by {
                if id == id0 && !pre.has(id0) {
                    assert(refs_upto(items@, scanned@, id, k as int) =~= Set::<usize>::empty()) by {
                        if exists|f: usize| #[trigger] refs_upto(items@, scanned@, id, k as int).contains(f) {
                            assert(pre.has(id));
                        }
                    }
                    assert(Set::<usize>::empty() + mset =~= mset);
                }
            }
            assert forall|id: Seq<char>| #[trigger] acc.has(id) <==> exists|f: usize| #[trigger] refs_upto(items@, scanned@, id, k + 1).contains(f) by {
                if id == id0 {
                    if acc.has(id) {
                        if pre.has(id) {
                            let f = choose|f: usize| #[trigger] refs_upto(items@, scanned@, id, k as int).contains(f);
                            assert(refs_upto(items@, scanned@, id, k + 1).contains(f));
                        } else {
                            assert(ms@.len() > 0);
                            assert(ms@.contains(ms@[0]));
                            assert(refs_upto(items@, scanned@, id, k + 1).contains(ms@[0]));
                        }
                    }
                    if exists|f: usize| #[trigger] refs_upto(items@, scanned@, id, k + 1).contains(f) {
                        let f = choose|f: usize| #[trigger] refs_upto(items@, scanned@, id, k + 1).contains(f);
                        if !refs_upto(items@, scanned@, id, k as int).contains(f) {
                            assert(mset.contains(f));
                            assert(ms@.len() > 0);
                        }
                    }
                } else {
                    if acc.has(id) {
                        let f = choose|f: usize| #[trigger] refs_upto(items@, scanned@, id, k as int).contains(f);
                        assert(refs_upto(items@, scanned@, id, k + 1).contains(f));
                    }
                    if exists|f: usize| #[trigger] refs_upto(items@, scanned@, id, k + 1).contains(f) {
                        let f = choose|f: usize| #[trigger] refs_upto(items@, scanned@, id, k + 1).contains(f);
                        assert(refs_upto(items@, scanned@, id, k as int).contains(f));
                    }
                }
            }
        }
        k = k + 1;
    }
    proof {
        assert forall|id: Seq<char>| #[trigger] acc.has(id) implies acc.lookup(id)->0.wf() && key_set(acc.lookup(id)->0) == refs_of(items@, scanned@, id) by {
        }
        assert forall|id: Seq<char>| #[trigger] acc.has(id) <==> exists|f: usize| #[trigger] refs_of(items@, scanned@, id).contains(f) by {
            if acc.has(id) {
                let f = choose|f: usize| #[trigger] refs_upto(items@, scanned@, id, k as int).contains(f);
                assert(refs_of(items@, scanned@, id).contains(f));
            }
            if exists|f: usize| #[trigger] refs_of(items@, scanned@, id).contains(f) {
                let f = choose|f: usize| #[trigger] refs_of(items@, scanned@, id).contains(f);
                assert(refs_upto(items@, scanned@, id, k as int).contains(f));
            }
        }
    }
    acc
}

} // verus!

verus! {

/// The label of the nodes that stand for referencing documents.
pub const RFC_DOC_LABEL: &'static str = "RfcDoc";

/// The label of the item → document edges.
pub const REFERENCED_BY_LABEL: &'static str = "REFERENCED_BY";

/// The node id of the document at `path`.
pub open spec fn rfc_doc_id(path: Seq<char>) -> Seq<char> {
    "rfc:"@ + path
}

/// The node id of the document at `path`: `rfc:<path>`.
pub fn rfc_doc_node_id(path: &str) -> (r: String)
    ensures
        r@ == rfc_doc_id(path@),
{
    let mut out = String::new();
    push_str(&mut out, "rfc:");
    push_str(&mut out, path);
    out
}

/// `n` is the node of document `f`: id `rfc:<path>`, label `RfcDoc`, and
/// exactly the properties `path` and `title` (null when untitled).
pub open spec fn is_rfc_doc_node(n: Node, f: ScannedFile) -> bool {
    &&& n.id@ == rfc_doc_id(f.path@)
    &&& n.label@ == RFC_DOC_LABEL@
    &&& n.props.wf()
    &&& prop_of(n.props, "path"@) == Some(PropView::Str(f.path@))
    &&& prop_of(n.props, "title"@) == Some(match f.title {
        Some(t) => PropView::Str(t@),
        None => PropView::Null,
    })
    &&& forall|q: Seq<char>| q != "path"@ && q != "title"@ ==> #[trigger] prop_of(n.props, q) is None
}

/// `e` is the edge recording that document `f` references item `id`.
pub open spec fn is_ref_edge(e: Edge, id: Seq<char>, f: ScannedFile) -> bool {
    &&& e.src@ == id
    &&& e.dst@ == rfc_doc_id(f.path@)
    &&& e.label@ == REFERENCED_BY_LABEL@
    &&& e.props.wf()
    &&& e.props.entries@.len() == 0
}

/// The node of document `f`.
pub fn build_rfc_doc_node(f: &ScannedFile) -> (n: Node)
    ensures
        is_rfc_doc_node(n, *f),
{
    let id = rfc_doc_node_id(f.path.as_str());
    let n = Node::new(id.as_str(), RFC_DOC_LABEL);
    proof {
        assert forall|q: Seq<char>| #[trigger] prop_of(n.props, q) is None by {
            assert(!n.props.has(q));
        }
    }
    let title = match &f.title {
        Some(t) => PropValue::Str(t.clone()),
        None => PropValue::Null,
    };
    let n1 = n.with_prop("path", PropValue::Str(f.path.clone()));
    proof {
        reveal_strlit("path");
        reveal_strlit("title");
        assert(prop_of(n1.props, "path"@) == Some(PropView::Str(f.path@)));
        assert("path"@.len() == 4 && "title"@.len() == 5);
        assert("path"@ != "title"@);
    }
    let n2 = n1.with_prop("title", title);
    proof {
        assert(prop_of(n2.props, "path"@) == prop_of(n1.props, "path"@));
    }
    n2
}

/// The edge recording that document `f` references item `item_node_id`.
pub fn build_edge(item_node_id: &str, f: &ScannedFile) -> (e: Edge)
    ensures
        is_ref_edge(e, item_node_id@, *f),
{
    let dst = rfc_doc_node_id(f.path.as_str());
    let e = Edge::new(item_node_id, dst.as_str(), REFERENCED_BY_LABEL);
    e
}

/// Every file index the references name is a file.
pub open spec fn refs_within(r: References, n: nat) -> bool {
    &&& r.wf()
    &&& forall|id: Seq<char>| #[trigger] r.has(id) ==> r.lookup(id)->0.wf()
        && forall|f: usize| #[trigger] key_set(r.lookup(id)->0).contains(f) ==> f < n
}

/// Some item is referenced by file `f`.
pub open spec fn referenced_file(r: References, f: usize) -> bool {
    exists|id: Seq<char>| #[trigger] r.has(id) && key_set(r.lookup(id)->0).contains(f)
}

/// The `(item id, file index)` reference pairs that `r` records.
pub open spec fn ref_pairs_of(r: References) -> Set<(Seq<char>, usize)> {
    Set::new(|p: (Seq<char>, usize)| r.has(p.0) && key_set(r.lookup(p.0)->0).contains(p.1))
}

/// File `f` is referenced by some item in the pairs `pairs`.
pub open spec fn file_in_pairs(pairs: Set<(Seq<char>, usize)>, f: usize) -> bool {
    exists|id: Seq<char>| #[trigger] pairs.contains((id, f))
}

/// The document nodes for reference pairs `pairs`: one per referenced
/// file, by file index.
pub open spec fn emitted_nodes_for(nodes: Seq<Node>, scanned: Seq<ScannedFile>, pairs: Set<(Seq<char>, usize)>) -> bool {
    exists|idxs: Seq<usize>| {
        &&& increasing(idxs)
        &&& forall|f: usize| #[trigger] idxs.contains(f) <==> file_in_pairs(pairs, f)
        &&& nodes.len() == idxs.len()
        &&& forall|k: int| 0 <= k < nodes.len() ==> is_rfc_doc_node(#[trigger] nodes[k], scanned[idxs[k] as int])
    }
}

/// `(id, file)` pairs ascending by id, then file.
pub open spec fn pairs_ascending(pairs: Seq<(Seq<char>, usize)>) -> bool {
    forall|a: int, b: int| 0 <= a < b < pairs.len() ==> crate::order::lex_lt((#[trigger] pairs[a]).0, (#[trigger] pairs[b]).0)
        || (pairs[a].0 == pairs[b].0 && pairs[a].1 < pairs[b].1)
}

/// The reference edges for pairs `pairs`: one per pair, by item id then
/// file index.
pub open spec fn emitted_edges_for(edges: Seq<Edge>, scanned: Seq<ScannedFile>, pairs: Set<(Seq<char>, usize)>) -> bool {
    exists|ps: Seq<(Seq<char>, usize)>| {
        &&& pairs_ascending(ps)
        &&& forall|p: (Seq<char>, usize)| #[trigger] ps.contains(p) <==> pairs.contains(p)
        &&& edges.len() == ps.len()
        &&& forall|k: int| 0 <= k < edges.len() ==> is_ref_edge(#[trigger] edges[k], ps[k].0, scanned[ps[k].1 as int])
    }
}

/// The indexes of the files that reference some item, ascending.
pub fn referenced_files(r: &References) -> (v: Vec<usize>)
    requires
        r.wf(),
        forall|id: Seq<char>| #[trigger] r.has(id) ==> r.lookup(id)->0.wf(),
    ensures
        increasing(v@),
        forall|f: usize| #[trigger] v@.contains(f) <==> referenced_file(*r, f),
{
    let mut all: SortedMap<usize, ()> = SortedMap::new();
    let mut e: usize = 0;
    while e < r.entries.len()
        invariant
            e <= r.entries@.len(),
            r.wf(),
            forall|id: Seq<char>| #[trigger] r.has(id) ==> r.lookup(id)->0.wf(),
            all.wf(),
            forall|f: usize| #[trigger] all.has(f) <==> exists|x: int| 0 <= x < e && #[trigger] r.entries@[x].1.has(f),
        decreases r.entries@.len() - e,
    {
        let bucket = &r.entries[e].1;
        let mut x: usize = 0;
        let ghost pre = all;
        while x < bucket.entries.len()
            invariant
                x <= bucket.entries@.len(),
                e < r.entries@.len(),
                bucket == &r.entries@[e as int].1,
                forall|f: usize| #[trigger] pre.has(f) <==> exists|z: int| 0 <= z < e && #[trigger] r.entries@[z].1.has(f),
                all.wf(),
                forall|f: usize| #[trigger] all.has(f) <==> pre.has(f) || exists|y: int| 0 <= y < x && #[trigger] bucket.entries@[y].0 == f,
            decreases bucket.entries@.len() - x,
        {
            let ghost before = all;
            all.insert(bucket.entries[x].0, ());
            proof {
                assert forall|f: usize| #[trigger] all.has(f) <==> pre.has(f) || exists|y: int| 0 <= y < x + 1 && #[trigger] bucket.entries@[y].0 == f by {
                    if f != bucket.entries@[x as int].0 {
                        assert(all.has(f) == before.has(f));
                        if exists|y: int| 0 <= y < x + 1 && #[trigger] bucket.entries@[y].0 == f {
                            let y = choose|y: int| 0 <= y < x + 1 && #[trigger] bucket.entries@[y].0 == f;
                            assert(y < x);
                        }
                    }
                }
            }
            x = x + 1;
        }
        proof {
            assert forall|f: usize| #[trigger] all.has(f) <==> exists|z: int| 0 <= z < e + 1 && #[trigger] r.entries@[z].1.has(f) by {
                if pre.has(f) {
                    let z = choose|z: int| 0 <= z < e && #[trigger] r.entries@[z].1.has(f);
                    assert(r.entries@[z].1.has(f));
                }
                if all.has(f) && !pre.has(f) {
                    let y = choose|y: int| 0 <= y < x && #[trigger] bucket.entries@[y].0 == f;
                    assert(r.entries@[e as int].1.entries@[y].0.kv() == f);
                    assert(r.entries@[e as int].1.has(f));
                }
                if exists|z: int| 0 <= z < e + 1 && #[trigger] r.entries@[z].1.has(f) {
                    let z = choose|z: int| 0 <= z < e + 1 && #[trigger] r.entries@[z].1.has(f);
                    if z == e {
                        let y = choose|y: int| 0 <= y < bucket.entries@.len() && #[trigger] bucket.entries@[y].0.kv() == f;
                        assert(bucket.entries@[y].0 == f);
                    }
                }
            }
        }
        e = e + 1;
    }
    let mut v: Vec<usize> = Vec::new();
    let mut k: usize = 0;
    while k < all.entries.len()
        invariant
            k <= all.entries@.len(),
            all.wf(),
            v@.len() == k,
            forall|a: int| 0 <= a < k ==> #[trigger] v@[a] == all.entries@[a].0,
        decreases all.entries@.len() - k,
    {
        v.push(all.entries[k].0);
        k = k + 1;
    }
    proof {
        assert forall|a: int, b: int| 0 <= a < b < v@.len() implies v@[a] < v@[b] by {
            assert(usize::key_lt(all.entries@[a].0.kv(), all.entries@[b].0.kv()));
        }
        assert forall|f: usize| #[trigger] v@.contains(f) <==> referenced_file(*r, f) by {
            if v@.contains(f) {
                let a = choose|a: int| 0 <= a < v@.len() && v@[a] == f;
                assert(all.entries@[a].0.kv() == f);
                assert(all.has(f));
                let z = choose|z: int| 0 <= z < r.entries@.len() && #[trigger] r.entries@[z].1.has(f);
                r.lemma_lookup_at(z);
                assert(r.has(r.entries@[z].0@));
                assert(key_set(r.lookup(r.entries@[z].0@)->0).contains(f));
            }
            if referenced_file(*r, f) {
                let id = choose|id: Seq<char>| #[trigger] r.has(id) && key_set(r.lookup(id)->0).contains(f);
                let z = choose|z: int| 0 <= z < r.entries@.len() && #[trigger] r.entries@[z].0.kv() == id;
                r.lemma_lookup_at(z);
                assert(r.entries@[z].1.has(f));
                assert(all.has(f));
                let a = choose|a: int| 0 <= a < all.entries@.len() && #[trigger] all.entries@[a].0.kv() == f;
                assert(v@[a] == f);
            }
        }
    }
    v
}

} // verus!

verus! {

/// The document nodes and reference edges to add: one node per
/// referenced file, by file index; one edge per `(item, file)` reference,
/// by item id then file index.
pub fn emit_graph(scanned: &Vec<ScannedFile>, r: &References) -> (out: (Vec<Node>, Vec<Edge>))
    requires
        refs_within(*r, scanned@.len()),
    ensures
        emitted_nodes_for(out.0@, scanned@, ref_pairs_of(*r)),
        emitted_edges_for(out.1@, scanned@, ref_pairs_of(*r)),
{
    let idxs = referenced_files(r);
    let mut nodes: Vec<Node> = Vec::new();
    let mut k: usize = 0;
    while k < idxs.len()
        invariant
            k <= idxs@.len(),
            refs_within(*r, scanned@.len()),
            forall|f: usize| #[trigger] idxs@.contains(f) <==> referenced_file(*r, f),
            nodes@.len() == k,
            forall|a: int| 0 <= a < k ==> (#[trigger] idxs@[a]) < scanned@.len(),
            forall|a: int| 0 <= a < k ==> is_rfc_doc_node(#[trigger] nodes@[a], scanned@[idxs@[a] as int]),
        decreases idxs@.len() - k,
    {
        let f = idxs[k];
        proof {
            assert(idxs@.contains(f));
            let id = choose|id: Seq<char>| #[trigger] r.has(id) && key_set(r.lookup(id)->0).contains(f);
            assert(r.has(id) && key_set(r.lookup(id)->0).contains(f));
            assert(f < scanned@.len());
        }
        let ghost before = nodes@;
        nodes.push(build_rfc_doc_node(&scanned[f]));
        proof {
            assert forall|a: int| 0 <= a < k + 1 implies is_rfc_doc_node(#[trigger] nodes@[a], scanned@[idxs@[a] as int]) by {
                if a < k {
                    assert(nodes@[a] == before[a]);
                }
            }
        }
        k = k + 1;
    }
    proof {
        assert forall|f: usize| #[trigger] idxs@.contains(f) <==> file_in_pairs(ref_pairs_of(*r), f) by {
            if referenced_file(*r, f) {
                let id = choose|id: Seq<char>| #[trigger] r.has(id) && key_set(r.lookup(id)->0).contains(f);
                assert(ref_pairs_of(*r).contains((id, f)));
            }
            if file_in_pairs(ref_pairs_of(*r), f) {
                let id = choose|id: Seq<char>| #[trigger] ref_pairs_of(*r).contains((id, f));
                assert(r.has(id) && key_set(r.lookup(id)->0).contains(f));
            }
        }
        assert(emitted_nodes_for(nodes@, scanned@, ref_pairs_of(*r))) by {
            assert forall|a: int| 0 <= a < nodes@.len() implies is_rfc_doc_node(#[trigger] nodes@[a], scanned@[idxs@[a] as int]) by {}
        }
    }
    let mut edges: Vec<Edge> = Vec::new();
    let ghost mut pairs: Seq<(Seq<char>, usize)> = Seq::empty();
    let mut e: usize = 0;
    while e < r.entries.len()
        invariant
            e <= r.entries@.len(),
            refs_within(*r, scanned@.len()),
            pairs_ascending(pairs),
            forall|a: int| 0 <= a < pairs.len() && e < r.entries@.len() ==> crate::order::lex_lt(#[trigger] pairs[a].0, r.entries@[e as int].0@),
            forall|p: (Seq<char>, usize)| #[trigger] pairs.contains(p) <==> exists|z: int| 0 <= z < e && #[trigger] r.entries@[z].0@ == p.0
                && r.entries@[z].1.has(p.1),
            edges@.len() == pairs.len(),
            forall|a: int| 0 <= a < pairs.len() ==> (#[trigger] pairs[a]).1 < scanned@.len(),
            forall|a: int| 0 <= a < edges@.len() ==> is_ref_edge(#[trigger] edges@[a], pairs[a].0, scanned@[pairs[a].1 as int]),
        decreases r.entries@.len() - e,
    {
        let id = &r.entries[e].0;
        let bucket = &r.entries[e].1;
        proof {
            r.lemma_lookup_at(e as int);
            assert(bucket.wf());
        }
        let ghost pre = pairs;
        let mut x: usize = 0;
        while x < bucket.entries.len()
            invariant
                x <= bucket.entries@.len(),
                e < r.entries@.len(),
                id == &r.entries@[e as int].0,
                bucket == &r.entries@[e as int].1,
                bucket.wf(),
                r.lookup(id@) == Some(*bucket),
                refs_within(*r, scanned@.len()),
                pairs_ascending(pairs),
                pairs.len() >= pre.len(),
                forall|a: int| 0 <= a < pre.len() ==> pairs[a] == pre[a],
                forall|a: int| 0 <= a < pre.len() ==> crate::order::lex_lt(#[trigger] pre[a].0, id@),
                forall|a: int| pre.len() <= a < pairs.len() ==> (#[trigger] pairs[a]).0 == id@
                    && (x < bucket.entries@.len() ==> pairs[a].1 < bucket.entries@[x as int].0),
                forall|p: (Seq<char>, usize)| #[trigger] pairs.contains(p) <==> pre.contains(p) || (p.0 == id@
                    && exists|y: int| 0 <= y < x && #[trigger] bucket.entries@[y].0 == p.1),
                edges@.len() == pairs.len(),
                forall|a: int| 0 <= a < pairs.len() ==> (#[trigger] pairs[a]).1 < scanned@.len(),
                forall|a: int| 0 <= a < edges@.len() ==> is_ref_edge(#[trigger] edges@[a], pairs[a].0, scanned@[pairs[a].1 as int]),
            decreases bucket.entries@.len() - x,
        {
            let f = bucket.entries[x].0;
            proof {
                assert(r.has(id@));
                assert(key_set(r.lookup(id@)->0).contains(f)) by {
                    assert(bucket.entries@[x as int].0.kv() == f);
                }
                assert(f < scanned@.len());
            }
            edges.push(build_edge(id.as_str(), &scanned[f]));
            let ghost before = pairs;
            proof {
                pairs = pairs.push((id@, f));
                crate::elems::lemma_push_contains(before, (id@, f));
                assert forall|a: int, b: int| 0 <= a < b < pairs.len() implies crate::order::lex_lt((#[trigger] pairs[a]).0, (#[trigger] pairs[b]).0)
                    || (pairs[a].0 == pairs[b].0 && pairs[a].1 < pairs[b].1) by {
                    if b == pairs.len() - 1 {
                        if a < pre.len() {
                            assert(pairs[a] == pre[a]);
                        } else {
                            assert(pairs[a] == before[a]);
                        }
                    } else {
                        assert(pairs[a] == before[a] && pairs[b] == before[b]);
                    }
                }
                assert forall|a: int| pre.len() <= a < pairs.len() implies (#[trigger] pairs[a]).0 == id@
                    && (x + 1 < bucket.entries@.len() ==> pairs[a].1 < bucket.entries@[x + 1].0) by {
                    if x + 1 < bucket.entries@.len() {
                        assert(usize::key_lt(bucket.entries@[x as int].0.kv(), bucket.entries@[x + 1].0.kv()));
                    }
                    if a < pairs.len() - 1 {
                        assert(pairs[a] == before[a]);
                    }
                }
                assert forall|p: (Seq<char>, usize)| #[trigger] pairs.contains(p) <==> pre.contains(p) || (p.0 == id@
                    && exists|y: int| 0 <= y < x + 1 && #[trigger] bucket.entries@[y].0 == p.1) by {
                    if p == (id@, f) {
                        assert(bucket.entries@[x as int].0 == p.1);
                    }
                    if p.0 == id@ && exists|y: int| 0 <= y < x + 1 && #[trigger] bucket.entries@[y].0 == p.1 {
                        let y = choose|y: int| 0 <= y < x + 1 && #[trigger] bucket.entries@[y].0 == p.1;
                        if y == x {
                            assert(p == (id@, f));
                        }
                    }
                }
                assert forall|a: int| 0 <= a < pairs.len() implies (#[trigger] pairs[a]).1 < scanned@.len() by {
                    if a < pairs.len() - 1 {
                        assert(pairs[a] == before[a]);
                    }
                }
                assert forall|a: int| 0 <= a < edges@.len() implies is_ref_edge(#[trigger] edges@[a], pairs[a].0, scanned@[pairs[a].1 as int]) by {
                    if a < edges@.len() - 1 {
                        assert(pairs[a] == before[a]);
                    }
                }
            }
            x = x + 1;
        }
        proof {
            assert forall|a: int| 0 <= a < pairs.len() && e + 1 < r.entries@.len() implies crate::order::lex_lt(#[trigger] pairs[a].0, r.entries@[e + 1].0@) by {
                assert(String::key_lt(r.entries@[e as int].0.kv(), r.entries@[e + 1].0.kv()));
                if a < pre.len() {
                    assert(pairs[a] == pre[a]);
                    crate::order::lemma_lex_transitive(pre[a].0, id@, r.entries@[e + 1].0@);
                }
            }
            assert forall|p: (Seq<char>, usize)| #[trigger] pairs.contains(p) <==> exists|z: int| 0 <= z < e + 1 && #[trigger] r.entries@[z].0@ == p.0
                && r.entries@[z].1.has(p.1) by {
                if pre.contains(p) {
                    let z = choose|z: int| 0 <= z < e && #[trigger] r.entries@[z].0@ == p.0 && r.entries@[z].1.has(p.1);
                    assert(r.entries@[z].0@ == p.0 && r.entries@[z].1.has(p.1));
                }
                if p.0 == id@ && exists|y: int| 0 <= y < x && #[trigger] bucket.entries@[y].0 == p.1 {
                    let y = choose|y: int| 0 <= y < x && #[trigger] bucket.entries@[y].0 == p.1;
                    assert(bucket.entries@[y].0.kv() == p.1);
                    assert(r.entries@[e as int].1.has(p.1));
                }
                if exists|z: int| 0 <= z < e + 1 && #[trigger] r.entries@[z].0@ == p.0 && r.entries@[z].1.has(p.1) {
                    let z = choose|z: int| 0 <= z < e + 1 && #[trigger] r.entries@[z].0@ == p.0 && r.entries@[z].1.has(p.1);
                    if z == e {
                        let y = choose|y: int| 0 <= y < bucket.entries@.len() && #[trigger] bucket.entries@[y].0.kv() == p.1;
                        assert(bucket.entries@[y].0 == p.1);
                    } else {
                        assert(pre.contains(p));
                    }
                }
            }
        }
        e = e + 1;
    }
    proof {
        assert forall|p: (Seq<char>, usize)| #[trigger] pairs.contains(p) <==> r.has(p.0) && key_set(r.lookup(p.0)->0).contains(p.1) by {
            if pairs.contains(p) {
                let z = choose|z: int| 0 <= z < e && #[trigger] r.entries@[z].0@ == p.0 && r.entries@[z].1.has(p.1);
                r.lemma_lookup_at(z);
            }
            if r.has(p.0) && key_set(r.lookup(p.0)->0).contains(p.1) {
                let z = choose|z: int| 0 <= z < r.entries@.len() && #[trigger] r.entries@[z].0.kv() == p.0;
                r.lemma_lookup_at(z);
                assert(r.entries@[z].0@ == p.0 && r.entries@[z].1.has(p.1));
            }
        }
        assert forall|p: (Seq<char>, usize)| #[trigger] pairs.contains(p) <==> ref_pairs_of(*r).contains(p) by {}
        assert(emitted_edges_for(edges@, scanned@, ref_pairs_of(*r))) by {
            assert forall|k: int| 0 <= k < edges@.len() implies is_ref_edge(#[trigger] edges@[k], pairs[k].0, scanned@[pairs[k].1 as int]) by {}
        }
    }
    (nodes, edges)
}

} // verus!

verus! {

/// What an enrichment pass did.
#[derive(Debug)]
pub struct EnrichReport {
    pub verb: String,
    /// Whether the pass ran (a pass lacking its inputs reports `false`).
    pub ran: bool,
    pub facts_scanned: u64,
    pub attrs_written: u64,
    pub edges_written: u64,
    pub warnings: Vec<String>,
}

/// The verb of the document-reference pass.
pub const RFC_DOCS_VERB: &'static str = "enrich_rfc_docs";

/// The reference pairs `(item node id, file index)` of keyspace `s`
/// against the scanned files.
pub open spec fn rfc_ref_pairs(s: KeyspaceState, scanned: Seq<ScannedFile>) -> Set<(Seq<char>, usize)> {
    Set::new(|p: (Seq<char>, usize)| p.1 < scanned.len() && exists|i: int| 0 <= i < s.nodes().len()
        && matchable(#[trigger] s.nodes()[i]) && s.nodes()[i].id@ == p.0 && matches_file(item_row_of(s.nodes()[i]), scanned[p.1 as int]))
}

/// Some node of `s` is an item with a name or a qname.
pub open spec fn has_matchable(s: KeyspaceState) -> bool {
    exists|i: int| 0 <= i < s.nodes().len() && matchable(#[trigger] s.nodes()[i])
}

/// Records which scanned documents reference which items: adds one
/// `:RfcDoc` node per referenced document and one `REFERENCED_BY` edge per
/// `(item, document)` reference. `warnings` are those of reading the
/// documents.
pub fn enrich_rfc_docs(state: &mut KeyspaceState, scanned: Vec<ScannedFile>, warnings: Vec<String>) -> (r: EnrichReport)
    requires
        old(state).wf(),
        old(state).nodes().len() + scanned@.len() + 1 < 0xffff_ffff,
        old(state).edges().len() + rfc_ref_pairs(*old(state), scanned@).len() + 1 < 0xffff_ffff,
    ensures
        final(state).wf(),
        r.verb@ == RFC_DOCS_VERB@,
        r.ran,
        r.facts_scanned == scanned@.len(),
        r.warnings == warnings,
        (!has_matchable(*old(state)) || scanned@.len() == 0) ==> *final(state) == *old(state) && r.attrs_written == 0
            && r.edges_written == 0,
        (has_matchable(*old(state)) && scanned@.len() > 0) ==> exists|ns: Seq<Node>, es: Seq<Edge>| {
            &&& emitted_nodes_for(ns, scanned@, rfc_ref_pairs(*old(state), scanned@))
            &&& emitted_edges_for(es, scanned@, rfc_ref_pairs(*old(state), scanned@))
            &&& final(state).nodes() == apply_nodes(old(state).nodes(), ns)
            &&& final(state).edges() == old(state).edges() + applied_edges(final(state).nodes(), es)
            &&& r.attrs_written == 2 * ns.len()
            &&& r.edges_written == es.len()
        },
{
    let ghost pre = *state;
    let items = collect_items(state);
    let n_files = scanned.len();
    if items.len() == 0 || n_files == 0 {
        proof {
            if has_matchable(pre) && items@.len() == 0 {
                let i = choose|i: int| 0 <= i < pre.nodes().len() && matchable(#[trigger] pre.nodes()[i]);
                assert(exists|k: int| 0 <= k < items@.len() && items@[k].view() == item_row_of(pre.nodes()[i]));
            }
        }
        return EnrichReport {
            verb: RFC_DOCS_VERB.to_owned(),
            ran: true,
            facts_scanned: n_files as u64,
            attrs_written: 0,
            edges_written: 0,
            warnings,
        };
    }
    proof {
        assert(row_of_some_item(pre, items@[0].view()));
        let i0 = choose|i: int| 0 <= i < pre.nodes().len() && matchable(#[trigger] pre.nodes()[i])
            && items@[0].view() == item_row_of(pre.nodes()[i]);
        assert(has_matchable(pre));
    }
    let refs = find_references(&items, &scanned);
    proof {
        assert forall|id: Seq<char>| #[trigger] refs.has(id) implies refs.lookup(id)->0.wf()
            && forall|f: usize| #[trigger] key_set(refs.lookup(id)->0).contains(f) ==> f < scanned@.len() by {
        }
        assert(ref_pairs_of(refs) =~= rfc_ref_pairs(pre, scanned@)) by {
            assert forall|p: (Seq<char>, usize)| ref_pairs_of(refs).contains(p) <==> rfc_ref_pairs(pre, scanned@).contains(p) by {
                if ref_pairs_of(refs).contains(p) {
                    assert(refs_of(items@, scanned@, p.0).contains(p.1));
                    let x = choose|x: int| 0 <= x < items@.len() && #[trigger] items@[x].node_id@ == p.0
                        && matches_file(items@[x].view(), scanned@[p.1 as int]);
                    assert(row_of_some_item(pre, items@[x].view()));
                    let i = choose|i: int| 0 <= i < pre.nodes().len() && matchable(#[trigger] pre.nodes()[i])
                        && items@[x].view() == item_row_of(pre.nodes()[i]);
                    assert(pre.nodes()[i].id@ == p.0);
                }
                if rfc_ref_pairs(pre, scanned@).contains(p) {
                    let i = choose|i: int| 0 <= i < pre.nodes().len() && matchable(#[trigger] pre.nodes()[i])
                        && pre.nodes()[i].id@ == p.0 && matches_file(item_row_of(pre.nodes()[i]), scanned@[p.1 as int]);
                    let x = choose|x: int| 0 <= x < items@.len() && items@[x].view() == item_row_of(pre.nodes()[i]);
                    assert(items@[x].node_id@ == p.0);
                    assert(refs_of(items@, scanned@, p.0).contains(p.1));
                    assert(refs.has(p.0));
                }
            }
        }
    }
    let (rfc_nodes, edges) = emit_graph(&scanned, &refs);
    let ghost pairs = rfc_ref_pairs(pre, scanned@);
    proof {
        let idxs = choose|idxs: Seq<usize>| {
            &&& increasing(idxs)
            &&& forall|f: usize| #[trigger] idxs.contains(f) <==> file_in_pairs(pairs, f)
            &&& rfc_nodes@.len() == idxs.len()
            &&& forall|k: int| 0 <= k < rfc_nodes@.len() ==> is_rfc_doc_node(#[trigger] rfc_nodes@[k], scanned@[idxs[k] as int])
        };
        assert forall|a: int| 0 <= a < idxs.len() implies #[trigger] idxs[a] < scanned@.len() by {
            assert(idxs.contains(idxs[a]));
            let id = choose|id: Seq<char>| #[trigger] pairs.contains((id, idxs[a]));
        }
        lemma_increasing_len(idxs, scanned@.len());
        assert forall|k: int| 0 <= k < rfc_nodes@.len() implies (#[trigger] rfc_nodes@[k]).props.wf() by {
            assert(is_rfc_doc_node(rfc_nodes@[k], scanned@[idxs[k] as int]));
        }
        let ps = choose|ps: Seq<(Seq<char>, usize)>| {
            &&& pairs_ascending(ps)
            &&& forall|p: (Seq<char>, usize)| #[trigger] ps.contains(p) <==> pairs.contains(p)
            &&& edges@.len() == ps.len()
            &&& forall|k: int| 0 <= k < edges@.len() ==> is_ref_edge(#[trigger] edges@[k], ps[k].0, scanned@[ps[k].1 as int])
        };
        assert(ps.no_duplicates()) by {
            assert forall|a: int, b: int| 0 <= a < ps.len() && 0 <= b < ps.len() && a != b implies ps[a] != ps[b] by {
                if a < b {
                    assert(crate::order::lex_lt(ps[a].0, ps[b].0) || (ps[a].0 == ps[b].0 && ps[a].1 < ps[b].1));
                } else {
                    assert(crate::order::lex_lt(ps[b].0, ps[a].0) || (ps[b].0 == ps[a].0 && ps[b].1 < ps[a].1));
                }
                if ps[a] == ps[b] {
                    crate::order::lemma_lex_irreflexive(ps[a].0);
                }
            }
        }
        ps.unique_seq_to_set();
        assert(ps.to_set() =~= pairs);
    }
    let n_nodes = rfc_nodes.len();
    let n_edges = edges.len();
    state.ingest_nodes(rfc_nodes);
    state.ingest_edges(edges);
    EnrichReport {
        verb: RFC_DOCS_VERB.to_owned(),
        ran: true,
        facts_scanned: n_files as u64,
        attrs_written: 2 * (n_nodes as u64),
        edges_written: n_edges as u64,
        warnings,
    }
}

} // verus!
