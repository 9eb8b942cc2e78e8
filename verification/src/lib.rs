//! Schema, validator and curation rules for the missingno game database.
//!
//! The database is a tree of RON manifests, one per game, grouped per
//! platform: `{gb,gbc,sg1000,vcs}/{slug}/manifest.ron`. A game holds one or
//! more releases (region / revision / hardware variants), each carrying the
//! artifacts (ROM dumps) for that variant.
//!
//! Reading and writing files, and RON itself, are the caller's part: the
//! functions here take what was read and decide what it means.
pub mod backfill_sg1000;
pub mod board;
pub mod cli;
pub mod dat_file;
pub mod fix_slugs;
pub mod fix_titles;
pub mod flags;
pub mod game;
pub mod import_colecovision;
pub mod import_dat;
pub mod import_flags;
pub mod import_nointro;
pub mod import_sg1000;
pub mod json;
pub mod legacy;
pub mod ids;
pub mod load;
pub mod migrate_features;
pub mod migrate_homebrew;
pub mod migrate_sizes;
pub mod migrate_vcs;
pub mod nointro_games;
pub mod order;
pub mod paths;
pub mod platform;
pub mod region;
pub mod rejected;
pub mod report;
pub mod source;
pub mod strings;
pub mod text;
pub mod tree;
pub mod validate;
pub mod verify_hashes;
pub mod xml;

pub use flags::{Flag, FlagFile, FlagKind};
pub use game::{
    Artifact, Defect, Game, GameKind, Language, Link, LinkType, Mod, ModCategory, ModOf,
    ModRelease, Patch, PatchFormat, Release, ReleaseStatus,
};
pub use ids::{Date, ReleaseDate, Sha1, Slug};
pub use load::{Database, Entry, LoadFile, LoadIssue, Tree};
pub use platform::{
    AttributeValue, BoardValue, Controller, Feature, GameBoy, GameBoyColor, GbHardware,
    GbcHardware, Platform, Sg1000, Sg1000Hardware, TvStandard, Vcs, VcsHardware, platform_dirs,
};
pub use region::Region;
pub use rejected::{RejectedFile, Rejection};
pub use report::Report;
pub use source::Source;
pub use text::{normalize_title, normalized_title, parse_region, parse_region_list, slugify};
pub use validate::{
    Finding, FormatFile, FormatReport, ManifestFile, Severity, format_all, validate, validate_tree,
};
