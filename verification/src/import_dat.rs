//! Folding a No-Intro DAT into its platform tree: what a fold counted.
use vstd::prelude::*;

verus! {

/// What a DAT fold counted.
#[derive(Clone, Copy, PartialEq, Eq, Structural, Debug)]
pub struct Stats {
    pub dat_entries: usize,
    pub bios_entries: usize,
    pub profile_skipped: usize,
    pub new_games: usize,
    pub releases_added: usize,
    pub families_skipped: usize,
}

} // verus!
