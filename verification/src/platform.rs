//! The platform axis of the database: one tree per platform, and a
//! platform-specific block of per-release hardware facts.
use vstd::prelude::*;

verus! {

/// A part populated on a board, as it crosses the facts seam untyped.
#[derive(Clone, PartialEq, Eq, Debug)]
pub enum AttributeValue {
    /// A measured size, in bytes.
    Bytes(u64),
    /// One of the sizes or kinds the board offers for this part.
    Choice(String),
    /// Whether a part (a battery, a rumble motor) is fitted.
    Toggle(bool),
}

/// A cartridge board by its code, with the parts stated on it — e.g.
/// `Mbc1` with `rom: 512K` and `battery: true`.
#[derive(Clone, PartialEq, Eq, Debug)]
pub struct BoardValue {
    pub name: String,
    pub attributes: Vec<(String, AttributeValue)>,
}

/// The TV standard a release was built for. `PalM` is Brazil's PAL-M: PAL
/// colour on a 525-line/59.94 Hz raster.
#[derive(Clone, Copy, PartialEq, Eq, Structural, Hash, Debug)]
pub enum TvStandard {
    Ntsc,
    Pal,
    PalM,
}

/// The platform axis: each platform names its tree directory and the block of
/// per-release hardware facts it carries.
pub trait Platform {
    /// Per-release hardware facts for this platform.
    type ReleaseHardware: Clone + PartialEq + core::fmt::Debug;

    spec fn spec_dir() -> Seq<char>;

    /// Tree directory name at the database root.
    fn dir() -> (r: &'static str)
        ensures
            r@ == Self::spec_dir(),
    ;
}

#[derive(Clone, Copy, PartialEq, Eq, Debug, Default)]
pub struct GameBoy;

#[derive(Clone, Copy, PartialEq, Eq, Debug, Default)]
pub struct GameBoyColor;

#[derive(Clone, Copy, PartialEq, Eq, Debug, Default)]
pub struct Vcs;

#[derive(Clone, Copy, PartialEq, Eq, Debug, Default)]
pub struct Sg1000;

impl Platform for GameBoy {
    type ReleaseHardware = GbHardware;

    open spec fn spec_dir() -> Seq<char> {
        "gb"@
    }

    fn dir() -> (r: &'static str) {
        "gb"
    }
}

impl Platform for GameBoyColor {
    type ReleaseHardware = GbcHardware;

    open spec fn spec_dir() -> Seq<char> {
        "gbc"@
    }

    fn dir() -> (r: &'static str) {
        "gbc"
    }
}

impl Platform for Vcs {
    type ReleaseHardware = VcsHardware;

    open spec fn spec_dir() -> Seq<char> {
        "vcs"@
    }

    fn dir() -> (r: &'static str) {
        "vcs"
    }
}

impl Platform for Sg1000 {
    type ReleaseHardware = Sg1000Hardware;

    open spec fn spec_dir() -> Seq<char> {
        "sg1000"@
    }

    fn dir() -> (r: &'static str) {
        "sg1000"
    }
}

/// Tree directory names at the database root, in platform order.
pub open spec fn platform_dir_names() -> Seq<Seq<char>> {
    seq![
        GameBoy::spec_dir(),
        GameBoyColor::spec_dir(),
        Sg1000::spec_dir(),
        Vcs::spec_dir(),
    ]
}

/// Tree directory names at the database root, in platform order.
pub fn platform_dirs() -> (dirs: Vec<&'static str>)
    ensures
        dirs@.len() == 4,
        forall|i: int| 0 <= i < 4 ==> #[trigger] dirs@[i]@ == platform_dir_names()[i],
{
    let mut dirs: Vec<&'static str> = Vec::new();
    dirs.push(GameBoy::dir());
    dirs.push(GameBoyColor::dir());
    dirs.push(Sg1000::dir());
    dirs.push(Vcs::dir());
    dirs
}

#[derive(Clone, PartialEq, Eq, Debug)]
pub struct GbHardware {
    /// Hardware this release drives beyond a plain Game Boy; empty = none of it.
    pub features: Vec<Feature>,
    /// Cartridge board — the mapper and the parts populated beside it;
    /// `None` = as the header says.
    pub cart_type: Option<BoardValue>,
}

/// CGB games are CGB-required by definition.
#[derive(Clone, PartialEq, Eq, Debug)]
pub struct GbcHardware {
    /// Cartridge board; `None` = as the header says.
    pub cart_type: Option<BoardValue>,
}

#[derive(Clone, PartialEq, Eq, Debug)]
pub struct Sg1000Hardware {
    /// The standard of the machine this software was written against;
    /// `None` = unstated, never a default.
    pub tv_format: Option<TvStandard>,
    /// Cartridge board and the ROM measured on it; `None` = a plain ROM.
    pub cart_type: Option<BoardValue>,
}

#[derive(Clone, PartialEq, Eq, Debug)]
pub struct VcsHardware {
    pub tv_format: Option<TvStandard>,
    /// Cartridge board, e.g. `Atari8K`, `Atari16KSuperchip`, `Plain4K`.
    pub cart_type: Option<BoardValue>,
    /// Controllers the release needs; empty = the platform default (joystick).
    pub controllers: Vec<Controller>,
}

/// Hardware a release drives beyond the plain console.
#[derive(Clone, Copy, PartialEq, Eq, Structural, Debug)]
pub enum Feature {
    /// Detects a Super Game Boy and drives its border, palette and sound.
    SuperGameBoyEnhanced,
    /// Detects a Game Boy Color and draws in its palettes.
    GameBoyColorEnhanced,
    /// Drives the serial port over a Game Link cable, the name the box prints.
    GameLink,
}

/// A controller a release needs.
#[derive(Clone, Copy, PartialEq, Eq, Structural, Debug)]
pub enum Controller {
    Joystick,
    Paddle,
    Driving,
    Keypad,
    Trackball,
    BoosterGrip,
    /// Coleco's Kid Vid Voice Module: an audio-cassette peripheral that plays
    /// story tapes synced to the game.
    KidVid,
    /// Atari's MindLink: a headband read as forehead-muscle movement.
    MindLink,
}

} // verus!
