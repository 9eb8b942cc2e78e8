use vstd::prelude::*;

verus! {

/// Where a release can legitimately be obtained. A release carries a list,
/// preference-ordered; an empty list means dump-only (verify your own copy).
#[derive(Clone, PartialEq, Eq, Debug)]
pub enum Source {
    Download { url: String },
    HomebrewHub { slug: String, filename: String },
    /// `paid` is `None` until someone checks the store page.
    Itch { url: String, paid: Option<bool> },
    SteamBundled { app_id: u32, path: String },
}

} // verus!
