//! The manifest schema: a game, its releases, and the dumps of each release.
use vstd::prelude::*;

use crate::ids::{ReleaseDate, Sha1};
use crate::platform::Platform;
use crate::region::Region;

verus! {

/// One game: the work itself, plus its releases.
#[derive(Clone, PartialEq, Debug)]
pub struct Game<P: Platform> {
    pub title: String,
    pub kind: GameKind,
    pub developer: Option<String>,
    pub description: Option<String>,
    pub tags: Vec<String>,
    pub links: Vec<Link>,
    /// Remote cover image URLs, preference-ordered.
    pub covers: Vec<String>,
    /// Remote screenshot URLs.
    pub screenshots: Vec<String>,
    /// Present when this game is a derived work patched onto another game's ROM.
    pub mod_of: Option<ModOf>,
    /// Fan modifications of this game, each with its own versions and curation.
    pub mods: Vec<Mod<P>>,
    /// Whether a human has reviewed this entry — the draft/non-draft line.
    pub curated: bool,
    /// Sexually explicit content — lets a frontend gate or badge the entry.
    pub adult: bool,
    /// Editor's-choice highlights, by curator identifier.
    pub recommended_by: Vec<String>,
    pub releases: Vec<Release<P>>,
}

/// What kind of work this entry is. `Demo` is a playable preview of a game;
/// `Demoscene` is a scene production in its own right; `Test` is a diagnostic
/// or calibration utility.
#[derive(Clone, Copy, PartialEq, Eq, Structural, Debug)]
pub enum GameKind {
    Game,
    Demo,
    Demoscene,
    Test,
}

/// A concrete published form of a game: region, revision, hardware variant.
#[derive(Clone, PartialEq, Debug)]
pub struct Release<P: Platform> {
    /// The title this release was published under, when it differs from the
    /// game's canonical title.
    pub title: Option<String>,
    /// Distinguishing name where regions/hardware aren't enough: "Rev A".
    pub label: Option<String>,
    pub regions: Vec<Region>,
    pub date: Option<ReleaseDate>,
    pub publisher: Option<String>,
    pub status: ReleaseStatus,
    pub hardware: P::ReleaseHardware,
    pub artifacts: Vec<Artifact>,
}

/// How finished a release is.
#[derive(Clone, Copy, PartialEq, Eq, Structural, Debug)]
pub enum ReleaseStatus {
    Released,
    Demo,
    WorkInProgress,
    Beta,
    Prototype,
}

/// A known dump of a release.
#[derive(Clone, PartialEq, Eq, Debug)]
pub struct Artifact {
    pub sha1: Sha1,
    /// What distinguishes this dump when a release has several: "alt", "[a1]".
    pub label: Option<String>,
    /// A quality problem with this dump, if any.
    pub defect: Option<Defect>,
    pub size: Option<u64>,
}

/// A quality problem with a specific dump.
#[derive(Clone, Copy, PartialEq, Eq, Structural, Debug)]
pub enum Defect {
    /// A padded dump: larger than the ROM (TOSEC `[o]`).
    Overdump,
    /// A corrupt or truncated dump that does not play correctly (TOSEC `[b]`).
    BadDump,
}

pub open spec fn defect_label(d: Defect) -> Seq<char> {
    match d {
        Defect::Overdump => "overdump"@,
        Defect::BadDump => "bad dump"@,
    }
}

impl Defect {
    /// Short human-readable name for display.
    pub fn label(self) -> (r: &'static str)
        ensures
            r@ == defect_label(self),
    {
        match self {
            Defect::Overdump => "overdump",
            Defect::BadDump => "bad dump",
        }
    }
}

#[derive(Clone, PartialEq, Eq, Debug)]
pub struct Link {
    pub name: String,
    pub url: String,
    pub link_type: LinkType,
    /// The languages this link's text is in. Empty = English.
    pub languages: Vec<Language>,
}

/// A human language, for tagging non-English (or multilingual) links.
#[derive(Clone, Copy, PartialEq, Eq, Structural, Debug)]
pub enum Language {
    English,
    French,
    German,
    Spanish,
    Italian,
    Portuguese,
    Dutch,
    Japanese,
    Swedish,
}

pub open spec fn language_label(l: Language) -> Seq<char> {
    match l {
        Language::English => "English"@,
        Language::French => "French"@,
        Language::German => "German"@,
        Language::Spanish => "Spanish"@,
        Language::Italian => "Italian"@,
        Language::Portuguese => "Portuguese"@,
        Language::Dutch => "Dutch"@,
        Language::Japanese => "Japanese"@,
        Language::Swedish => "Swedish"@,
    }
}

impl Language {
    /// Short human-readable name for display.
    pub fn label(self) -> (r: &'static str)
        ensures
            r@ == language_label(self),
    {
        match self {
            Language::English => "English",
            Language::French => "French",
            Language::German => "German",
            Language::Spanish => "Spanish",
            Language::Italian => "Italian",
            Language::Portuguese => "Portuguese",
            Language::Dutch => "Dutch",
            Language::Japanese => "Japanese",
            Language::Swedish => "Swedish",
        }
    }
}

#[derive(Clone, Copy, PartialEq, Eq, Structural, Debug)]
pub enum LinkType {
    Wiki,
    Manual,
    Source,
    Speedrun,
    UnusedContent,
    TechnicalReference,
    Guide,
    Community,
    /// A page to buy the game.
    Store,
    /// A page to obtain the ROM from, followed by a human.
    DownloadPage,
    /// A direct, fetchable ROM file URL.
    Download,
}

/// The derivation block of a mod/romhack: which artifact it patches and how.
#[derive(Clone, PartialEq, Eq, Debug)]
pub struct ModOf {
    /// The base ROM the derived work modifies.
    pub base_sha1: Sha1,
    pub category: ModCategory,
    /// Absent when the work circulates only as a pre-patched ROM.
    pub patch: Option<Patch>,
}

/// A fan modification attached to the game it modifies.
#[derive(Clone, PartialEq, Debug)]
pub struct Mod<P: Platform> {
    pub name: String,
    pub category: ModCategory,
    pub author: Option<String>,
    pub links: Vec<Link>,
    pub curated: bool,
    pub recommended_by: Vec<String>,
    pub releases: Vec<ModRelease<P>>,
}

/// One version of a mod.
#[derive(Clone, PartialEq, Debug)]
pub struct ModRelease<P: Platform> {
    /// Version or variant name: "v1.2", "easy mode".
    pub label: Option<String>,
    pub date: Option<ReleaseDate>,
    /// The base artifact this version applies to, when known.
    pub base_sha1: Option<Sha1>,
    pub patch: Option<Patch>,
    /// Where the build differs from the game's own hardware.
    pub hardware: P::ReleaseHardware,
    pub artifacts: Vec<Artifact>,
}

#[derive(Clone, Copy, PartialEq, Eq, Structural, Debug)]
pub enum ModCategory {
    Translation,
    QualityOfLife,
    ContentChange,
    /// Makes the same game run on hardware or a region it otherwise wouldn't.
    Compatibility,
    TotalConversion,
}

#[derive(Clone, PartialEq, Eq, Debug)]
pub struct Patch {
    pub format: PatchFormat,
    pub sha1: Sha1,
}

#[derive(Clone, Copy, PartialEq, Eq, Structural, Debug)]
pub enum PatchFormat {
    Ips,
    Bps,
}

} // verus!
