//! ROM size migration: what one tree's sweep counted, and the line a run
//! prints for it.
use vstd::prelude::*;

use crate::strings::{decimal, decimal_string, push_str};

verus! {

broadcast use vstd::string::group_string_axioms;

/// What a size migration did, tree by tree.
pub struct Stats {
    pub trees: Vec<TreeStats>,
}

/// What one tree's sweep counted.
#[derive(Clone, Copy, PartialEq, Eq, Debug)]
pub struct TreeStats {
    pub tree: &'static str,
    /// Manifests whose bare board name was restated in the attributed form.
    pub restated: usize,
    pub folded: usize,
    /// Folds that named the plain-ROM board, the release having stated none.
    pub boards_stated: usize,
    pub refused: usize,
    pub dropped: usize,
    pub rewritten: usize,
}

/// The summary line for one tree's counts.
pub open spec fn stats_line(s: TreeStats) -> Seq<char> {
    s.tree@ + ": "@ + decimal(s.folded as nat) + " ROM sizes folded onto boards ("@ + decimal(
        s.boards_stated as nat,
    ) + " boards newly stated, "@ + decimal(s.refused as nat) + " refused), "@ + decimal(
        s.dropped as nat,
    ) + " dump lengths dropped, "@ + decimal(s.restated as nat) + " bare boards restated, "@
        + decimal(s.rewritten as nat) + " manifests rewritten"@
}

impl TreeStats {
    /// The summary line a run prints for this tree.
    pub fn line(&self) -> (r: String)
        ensures
            r@ == stats_line(*self),
    {
        let mut out = String::new();
        push_str(&mut out, self.tree);
        push_str(&mut out, ": ");
        push_str(&mut out, decimal_string(self.folded as u64).as_str());
        push_str(&mut out, " ROM sizes folded onto boards (");
        push_str(&mut out, decimal_string(self.boards_stated as u64).as_str());
        push_str(&mut out, " boards newly stated, ");
        push_str(&mut out, decimal_string(self.refused as u64).as_str());
        push_str(&mut out, " refused), ");
        push_str(&mut out, decimal_string(self.dropped as u64).as_str());
        push_str(&mut out, " dump lengths dropped, ");
        push_str(&mut out, decimal_string(self.restated as u64).as_str());
        push_str(&mut out, " bare boards restated, ");
        push_str(&mut out, decimal_string(self.rewritten as u64).as_str());
        push_str(&mut out, " manifests rewritten");
        out
    }
}

} // verus!
