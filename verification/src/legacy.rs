//! The pre-migration manifest shape, as a homebrew migration reads it.
use vstd::prelude::*;

use crate::game::Link;
use crate::platform::TvStandard;

verus! {

/// A manifest in the pre-migration shape.
#[derive(Clone, Debug)]
pub struct LegacyManifest {
    pub title: String,
    pub date: Option<String>,
    pub region: Option<String>,
    pub developer: Option<String>,
    pub publisher: Option<String>,
    pub description: Option<String>,
    pub tv_format: Option<TvStandard>,
    pub cart_type: Option<String>,
    pub hashes: Vec<String>,
    /// Where a homebrew entry's dump came from; commercial entries have none.
    pub source: Option<LegacySource>,
    pub tags: Vec<String>,
    pub screenshots: Vec<String>,
    pub links: Vec<Link>,
}

/// Where a pre-migration homebrew entry said its dump came from.
#[derive(Clone, PartialEq, Eq, Debug)]
pub enum LegacySource {
    HomebrewHub { slug: String, filename: String },
    Url(String),
}

} // verus!
