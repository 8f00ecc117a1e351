//! Explain-trace rows: for each resolved node pattern, whether its
//! candidates came from the posting lists or from a full label scan.
use vstd::prelude::*;

use crate::text::push_str;

verus! {

/// How one candidate resolution was satisfied.
#[derive(Clone, Copy, Debug, PartialEq, Eq, Structural)]
pub enum ExplainHit {
    /// The posting lists answered.
    Indexed,
    /// A full label (or all-node) scan was needed.
    Fallback,
}

/// The word an explain line ends with.
pub open spec fn hit_word(h: ExplainHit) -> Seq<char> {
    match h {
        ExplainHit::Indexed => "indexed"@,
        ExplainHit::Fallback => "fallback"@,
    }
}

/// One explain row: a short rendering of the pattern and how it was hit.
#[derive(Clone, Debug, PartialEq, Eq)]
pub struct ExplainRow {
    pub pattern: String,
    pub hit: ExplainHit,
}

impl ExplainRow {
    /// The line `explain: <pattern> → <indexed|fallback>`.
    pub open spec fn line_spec(&self) -> Seq<char> {
        "explain: "@ + self.pattern@ + " → "@ + hit_word(self.hit)
    }

    /// Renders the row as one stable line.
    pub fn format_line(&self) -> (r: String)
        ensures
            r@ == self.line_spec(),
    {
        let arrow = match self.hit {
            ExplainHit::Indexed => "indexed",
            ExplainHit::Fallback => "fallback",
        };
        let mut out = String::new();
        push_str(&mut out, "explain: ");
        push_str(&mut out, self.pattern.as_str());
        push_str(&mut out, " → ");
        push_str(&mut out, arrow);
        proof {
            reveal_strlit("indexed");
            reveal_strlit("fallback");
        }
        out
    }
}

} // verus!
