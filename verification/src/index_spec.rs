//! The index declaration (`indexes.toml`): which `(label, property)` and
//! `(label, computed key)` pairs the store keeps posting lists for.
use vstd::prelude::*;

use crate::expr::{regex_find, regex_first_match};
use crate::text::push_str;

verus! {

/// A derived index key computed from one node property.
#[derive(Clone, Copy, Debug, PartialEq, Eq, Hash, Structural)]
pub enum ComputedKey {
    /// `last_segment(qname)`: the text after the last `::` of `qname`.
    LastSegment,
    /// `conversion_prefix(name)`: the leading `<word>_(from|to|for|as)_`
    /// of `name`.
    ConversionPrefix,
}

/// The pattern that `ConversionPrefix` applies to `name`.
pub const CONVERSION_PREFIX_PATTERN: &'static str = r"^(\w+)_(?:from|to|for|as)_";

/// The canonical name of a computed key.
pub open spec fn computed_key_name(k: ComputedKey) -> Seq<char> {
    match k {
        ComputedKey::LastSegment => "last_segment(qname)"@,
        ComputedKey::ConversionPrefix => "conversion_prefix(name)"@,
    }
}

/// The property a computed key is derived from.
pub open spec fn computed_key_source(k: ComputedKey) -> Seq<char> {
    match k {
        ComputedKey::LastSegment => "qname"@,
        ComputedKey::ConversionPrefix => "name"@,
    }
}

/// Position of the last `::` in `s`, if any.
pub open spec fn last_separator(s: Seq<char>) -> Option<int>
    decreases s.len(),
{
    if s.len() < 2 {
        None
    } else if s[s.len() - 2] == ':' && s[s.len() - 1] == ':' {
        Some(s.len() - 2)
    } else {
        last_separator(s.drop_last())
    }
}

/// The last `::`-separated segment of a qualified name: the text after the
/// last `::`, or the whole input when it holds none.
pub open spec fn last_segment_of(s: Seq<char>) -> Seq<char> {
    match last_separator(s) {
        Some(p) => s.skip(p + 2),
        None => s,
    }
}

/// The last `::`-separated segment of `s`.
pub fn last_segment(s: &str) -> (r: String)
    ensures
        r@ == last_segment_of(s@),
{
    let v = crate::text::chars_of(s);
    let mut n = v.len();
    proof {
        assert(v@.take(v@.len() as int) =~= v@);
    }
    while n >= 2 && !(v[n - 2] == ':' && v[n - 1] == ':')
        invariant
            n <= v@.len(),
            last_separator(v@) == last_separator(v@.take(n as int)),
        decreases n,
    {
        proof {
            assert(v@.take(n as int).drop_last() =~= v@.take(n - 1));
        }
        n = n - 1;
    }
    if n >= 2 {
        proof {
            assert(v@.take(n as int)[n - 2] == v@[n - 2]);
            assert(v@.take(n as int)[n - 1] == v@[n - 1]);
        }
        let tail = v.as_slice().split_at(n).1;
        proof {
            assert(tail@ =~= v@.skip(n as int));
        }
        crate::text::string_from_chars(tail)
    } else {
        crate::text::string_from_chars(v.as_slice())
    }
}

/// The value a computed key derives from its source property.
pub open spec fn computed_key_value(k: ComputedKey, source: Seq<char>) -> Option<Seq<char>> {
    match k {
        ComputedKey::LastSegment => Some(last_segment_of(source)),
        ComputedKey::ConversionPrefix => match regex_first_match(CONVERSION_PREFIX_PATTERN@, source) {
            Some(Some(m)) => Some(m),
            _ => None,
        },
    }
}

impl ComputedKey {
    /// The canonical name, as written in `indexes.toml`.
    pub fn as_str(self) -> (r: &'static str)
        ensures
            r@ == computed_key_name(self),
    {
        match self {
            ComputedKey::LastSegment => "last_segment(qname)",
            ComputedKey::ConversionPrefix => "conversion_prefix(name)",
        }
    }

    /// The node property the key is computed from.
    pub fn source_prop(self) -> (r: &'static str)
        ensures
            r@ == computed_key_source(self),
    {
        match self {
            ComputedKey::LastSegment => "qname",
            ComputedKey::ConversionPrefix => "name",
        }
    }

    /// Derives the key's value from `source`; `None` when the conversion
    /// prefix pattern does not match.
    pub fn evaluate(self, source: &str) -> (r: Option<String>)
        ensures
            match r {
                Some(v) => computed_key_value(self, source@) == Some(v@),
                None => computed_key_value(self, source@) == None::<Seq<char>>,
            },
    {
        match self {
            ComputedKey::LastSegment => Some(last_segment(source)),
            ComputedKey::ConversionPrefix => match regex_find(CONVERSION_PREFIX_PATTERN, source) {
                Some(Some(m)) => Some(m),
                _ => None,
            },
        }
    }

    /// Parses a canonical name; any other text is refused.
    pub fn parse(s: &str) -> (r: Result<ComputedKey, UnknownComputedKey>)
        ensures
            match r {
                Ok(k) => computed_key_name(k) == s@,
                Err(e) => e.0@ == s@ && s@ != computed_key_name(ComputedKey::LastSegment) && s@
                    != computed_key_name(ComputedKey::ConversionPrefix),
            },
    {
        if crate::text::str_eq(s, "last_segment(qname)") {
            Ok(ComputedKey::LastSegment)
        } else if crate::text::str_eq(s, "conversion_prefix(name)") {
            Ok(ComputedKey::ConversionPrefix)
        } else {
            Err(UnknownComputedKey(s.to_owned()))
        }
    }
}

impl std::str::FromStr for ComputedKey {
    type Err = UnknownComputedKey;

    fn from_str(s: &str) -> (r: Result<Self, Self::Err>)
        ensures
            match r {
                Ok(k) => computed_key_name(k) == s@,
                Err(e) => e.0@ == s@ && s@ != computed_key_name(ComputedKey::LastSegment) && s@
                    != computed_key_name(ComputedKey::ConversionPrefix),
            },
    {
        ComputedKey::parse(s)
    }
}

/// A computed-key name outside the allowed set.
#[derive(Debug, PartialEq, Eq)]
pub struct UnknownComputedKey(pub String);

/// The text after which an unknown computed key is reported.
pub open spec fn unknown_key_message(name: Seq<char>) -> Seq<char> {
    "unknown computed key `"@ + name + "` — allowed: last_segment(qname), conversion_prefix(name)"@
}

impl UnknownComputedKey {
    /// The human-readable report of the refused name.
    pub fn message(&self) -> (r: String)
        ensures
            r@ == unknown_key_message(self.0@),
    {
        let mut out = String::new();
        push_str(&mut out, "unknown computed key `");
        push_str(&mut out, self.0.as_str());
        push_str(&mut out, "` — allowed: last_segment(qname), conversion_prefix(name)");
        out
    }
}

/// One declared index.
#[derive(Clone, Debug, PartialEq, Eq)]
pub enum IndexEntry {
    /// Posting lists on the raw value of `prop` for nodes labelled `label`.
    Prop { label: String, prop: String, notes: String },
    /// Posting lists on a computed key for nodes labelled `label`.
    Computed { label: String, computed: ComputedKey, notes: String },
}

/// Why a raw `[[index]]` table does not make an index entry.
#[derive(Debug, PartialEq, Eq)]
pub enum IndexEntryError {
    /// Both `prop` and `computed` were given.
    BothPropAndComputed,
    /// Neither `prop` nor `computed` was given.
    NeitherPropNorComputed,
    /// `computed` names no known computed key.
    UnknownComputed(UnknownComputedKey),
}

impl IndexEntryError {
    pub open spec fn message_spec(&self) -> Seq<char> {
        match self {
            IndexEntryError::BothPropAndComputed => "index entry has both `prop` and `computed` set — pick one"@,
            IndexEntryError::NeitherPropNorComputed => "index entry missing both `prop` and `computed` — exactly one required"@,
            IndexEntryError::UnknownComputed(u) => unknown_key_message(u.0@),
        }
    }

    /// The human-readable report.
    pub fn message(&self) -> (r: String)
        ensures
            r@ == self.message_spec(),
    {
        match self {
            IndexEntryError::BothPropAndComputed => "index entry has both `prop` and `computed` set — pick one".to_owned(),
            IndexEntryError::NeitherPropNorComputed => "index entry missing both `prop` and `computed` — exactly one required".to_owned(),
            IndexEntryError::UnknownComputed(u) => u.message(),
        }
    }
}

impl IndexEntry {
    /// The declared label.
    pub open spec fn label_spec(&self) -> Seq<char> {
        match self {
            IndexEntry::Prop { label, .. } => label@,
            IndexEntry::Computed { label, .. } => label@,
        }
    }

    /// The posting tag: the property name, or the computed key's name.
    pub open spec fn tag_spec(&self) -> Seq<char> {
        match self {
            IndexEntry::Prop { prop, .. } => prop@,
            IndexEntry::Computed { computed, .. } => computed_key_name(*computed),
        }
    }

    /// Builds an entry from the fields of one `[[index]]` table: exactly one
    /// of `prop` and `computed` must be given, and `computed` must name a
    /// known key.
    pub fn from_raw(label: String, prop: Option<String>, computed: Option<String>, notes: String) -> (r: Result<IndexEntry, IndexEntryError>)
        ensures
            match (prop, computed) {
                (Some(_), Some(_)) => r == Err::<IndexEntry, IndexEntryError>(IndexEntryError::BothPropAndComputed),
                (None, None) => r == Err::<IndexEntry, IndexEntryError>(IndexEntryError::NeitherPropNorComputed),
                (Some(p), None) => r == Ok::<IndexEntry, IndexEntryError>(IndexEntry::Prop { label, prop: p, notes }),
                (None, Some(c)) => match r {
                    Ok(IndexEntry::Computed { label: l, computed: k, notes: n }) =>
                        l == label && n == notes && computed_key_name(k) == c@,
                    Err(IndexEntryError::UnknownComputed(u)) => u.0@ == c@
                        && c@ != computed_key_name(ComputedKey::LastSegment)
                        && c@ != computed_key_name(ComputedKey::ConversionPrefix),
                    _ => false,
                },
            },
    {
        match (prop, computed) {
            (Some(_), Some(_)) => Err(IndexEntryError::BothPropAndComputed),
            (None, None) => Err(IndexEntryError::NeitherPropNorComputed),
            (Some(p), None) => Ok(IndexEntry::Prop { label, prop: p, notes }),
            (None, Some(c)) => match ComputedKey::parse(c.as_str()) {
                Ok(k) => Ok(IndexEntry::Computed { label, computed: k, notes }),
                Err(u) => Err(IndexEntryError::UnknownComputed(u)),
            },
        }
    }

    /// A copy of the entry.
    pub fn duplicate(&self) -> (r: IndexEntry)
        ensures
            r == *self,
    {
        match self {
            IndexEntry::Prop { label, prop, notes } => IndexEntry::Prop {
                label: label.clone(),
                prop: prop.clone(),
                notes: notes.clone(),
            },
            IndexEntry::Computed { label, computed, notes } => IndexEntry::Computed {
                label: label.clone(),
                computed: *computed,
                notes: notes.clone(),
            },
        }
    }
}

/// The declared indexes of a store.
#[derive(Clone, Debug, Default, PartialEq, Eq)]
pub struct IndexSpec {
    pub entries: Vec<IndexEntry>,
}

impl IndexSpec {
    /// The spec with no entries.
    pub fn empty() -> (r: IndexSpec)
        ensures
            r.entries@.len() == 0,
    {
        IndexSpec { entries: Vec::new() }
    }

    /// Whether no index is declared.
    pub fn is_empty(&self) -> (r: bool)
        ensures
            r == (self.entries@.len() == 0),
    {
        self.entries.len() == 0
    }

    /// A copy of the spec.
    pub fn duplicate(&self) -> (r: IndexSpec)
        ensures
            r.entries@ == self.entries@,
    {
        let mut out: Vec<IndexEntry> = Vec::new();
        let mut i: usize = 0;
        while i < self.entries.len()
            invariant
                i <= self.entries@.len(),
                out@ == self.entries@.take(i as int),
            decreases self.entries@.len() - i,
        {
            let e = self.entries[i].duplicate();
            out.push(e);
            proof {
                assert(self.entries@.take(i + 1) =~= self.entries@.take(i as int).push(e));
            }
            i = i + 1;
        }
        proof {
            assert(self.entries@.take(i as int) =~= self.entries@);
        }
        IndexSpec { entries: out }
    }
}

/// Why an `indexes.toml` could not be loaded.
#[derive(Debug)]
pub enum IndexSpecLoadError {
    /// The file could not be read; the text is the I/O error's message.
    Io(String),
    /// The file is not a valid index declaration; the text says why.
    Toml(String),
}

impl IndexSpecLoadError {
    pub open spec fn message_spec(&self) -> Seq<char> {
        match self {
            IndexSpecLoadError::Io(e) => "read indexes.toml: "@ + e@,
            IndexSpecLoadError::Toml(m) => "parse indexes.toml: "@ + m@,
        }
    }

    /// The human-readable report.
    pub fn message(&self) -> (r: String)
        ensures
            r@ == self.message_spec(),
    {
        let mut out = String::new();
        match self {
            IndexSpecLoadError::Io(e) => {
                push_str(&mut out, "read indexes.toml: ");
                push_str(&mut out, e.as_str());
            },
            IndexSpecLoadError::Toml(m) => {
                push_str(&mut out, "parse indexes.toml: ");
                push_str(&mut out, m.as_str());
            },
        }
        out
    }
}

} // verus!
