//! What the SG-1000 DAT import states beyond the shared fold: which entries
//! the tree does not take, and the TV standard a release's markets imply.
use vstd::prelude::*;

use crate::platform::TvStandard;
use crate::region::Region;
use crate::strings::{chars_of, ends_with, find, find_in, lower_seq, to_lower};

verus! {

broadcast use vstd::string::group_string_axioms;

/// What an SG-1000 import counted.
#[derive(Clone, Copy, PartialEq, Eq, Structural, Debug)]
pub struct Stats {
    pub dat_entries: usize,
    pub computer_entries: usize,
    pub bios_entries: usize,
    pub new_games: usize,
    pub releases_added: usize,
    pub families_skipped: usize,
}

/// The standard the release's markets sold: the platform's NTSC markets make
/// software NTSC-authored, a set of PAL markets only PAL-authored.
pub open spec fn sg1000_tv(regions: Seq<Region>) -> Option<TvStandard> {
    if regions.len() == 0 {
        None
    } else if exists|i: int|
        0 <= i < regions.len() && (#[trigger] regions[i] == Region::Japan || regions[i] == Region::Taiwan
            || regions[i] == Region::Korea) {
        Some(TvStandard::Ntsc)
    } else {
        Some(TvStandard::Pal)
    }
}

/// The SG-1000's NTSC markets decide: a release sold in Japan, Taiwan or
/// Korea is NTSC-authored whatever else it was sold in; a release sold only
/// elsewhere is PAL-authored; a release with no market states none.
pub proof fn lemma_sg1000_markets(regions: Seq<Region>, i: int)
    ensures
        regions.len() == 0 ==> sg1000_tv(regions) is None,
        0 <= i < regions.len() && regions[i] == Region::Japan ==> sg1000_tv(regions) == Some(TvStandard::Ntsc),
        0 <= i < regions.len() && regions[i] == Region::Taiwan ==> sg1000_tv(regions) == Some(TvStandard::Ntsc),
        0 <= i < regions.len() && regions[i] == Region::Korea ==> sg1000_tv(regions) == Some(TvStandard::Ntsc),
        regions.len() > 0 && (forall|k: int|
            0 <= k < regions.len() ==> #[trigger] regions[k] != Region::Japan && regions[k] != Region::Taiwan
                && regions[k] != Region::Korea) ==> sg1000_tv(regions) == Some(TvStandard::Pal),
{
}

/// The standard the release's markets sold.
pub fn tv_format(regions: &Vec<Region>) -> (r: Option<TvStandard>)
    ensures
        r == sg1000_tv(regions@),
{
    if regions.len() == 0 {
        return None;
    }
    let mut i: usize = 0;
    while i < regions.len()
        invariant
            i <= regions@.len(),
            forall|k: int|
                0 <= k < i ==> !(#[trigger] regions@[k] == Region::Japan || regions@[k] == Region::Taiwan
                    || regions@[k] == Region::Korea),
        decreases regions@.len() - i,
    {
        let r = regions[i];
        if r == Region::Japan || r == Region::Taiwan || r == Region::Korea {
            return Some(TvStandard::Ntsc);
        }
        i = i + 1;
    }
    Some(TvStandard::Pal)
}

/// Name tags that state SC-3000/SF-7000 computer software.
pub open spec fn has_computer_tag(name: Seq<char>) -> bool {
    find(name, "(SC-3000)"@) is Some || find(name, "(SC3000)"@) is Some || find(name, "(SF-7000)"@) is Some
}

/// Whether any dump is a console cart: a file name ending ".sg", in any case.
pub open spec fn has_cart_dump(rom_names: Seq<Seq<char>>) -> bool {
    exists|i: int| 0 <= i < rom_names.len() && ends_with(lower_seq(#[trigger] rom_names[i]), ".sg"@)
}

/// The report section an entry the tree does not take is filed under: a
/// computer tag on the name overrules the dump's extension, and an entry with
/// no `.sg` dump is computer software.
pub open spec fn skip_reason(name: Seq<char>, rom_names: Seq<Seq<char>>) -> Option<Seq<char>> {
    if has_computer_tag(name) || !has_cart_dump(rom_names) {
        Some("SC-3000/SF-7000 program entries skipped"@)
    } else {
        None
    }
}

fn contains_text(v: &Vec<char>, pat: &str) -> (b: bool)
    ensures
        b == (find(v@, pat@) is Some),
{
    let p = chars_of(pat);
    find_in(v, &p, 0).is_some()
}

fn is_cart_name(name: &str) -> (b: bool)
    ensures
        b == ends_with(lower_seq(name@), ".sg"@),
{
    let c = chars_of(name);
    let n = c.len();
    proof {
        reveal_strlit(".sg");
    }
    if n < 3 {
        return false;
    }
    let a = to_lower(c[n - 3]);
    let b = to_lower(c[n - 2]);
    let d = to_lower(c[n - 1]);
    let r = a == '.' && b == 's' && d == 'g';
    proof {
        let low = lower_seq(name@);
        assert(low.subrange(n - 3, n as int) =~= seq![low[n - 3], low[n - 2], low[n - 1]]);
        assert(".sg"@ =~= seq!['.', 's', 'g']);
    }
    r
}

/// The section an entry the SG-1000 tree does not take is reported under.
pub fn skip_entry(name: &str, rom_names: &Vec<String>) -> (r: Option<&'static str>)
    ensures
        match skip_reason(name@, rom_names@.map_values(|s: String| s@)) {
            Some(section) => r matches Some(s) && s@ == section,
            None => r is None,
        },
{
    let ghost names = rom_names@.map_values(|s: String| s@);
    let n = chars_of(name);
    let tagged = contains_text(&n, "(SC-3000)") || contains_text(&n, "(SC3000)") || contains_text(&n, "(SF-7000)");
    let mut cart = false;
    let mut i: usize = 0;
    while i < rom_names.len() && !cart
        invariant
            i <= rom_names@.len(),
            names == rom_names@.map_values(|s: String| s@),
            cart ==> has_cart_dump(names),
            !cart ==> forall|k: int| 0 <= k < i ==> !ends_with(lower_seq(#[trigger] names[k]), ".sg"@),
        decreases rom_names@.len() - i,
    {
        if is_cart_name(rom_names[i].as_str()) {
            assert(ends_with(lower_seq(names[i as int]), ".sg"@));
            cart = true;
        }
        i = i + 1;
    }
    if tagged || !cart {
        Some("SC-3000/SF-7000 program entries skipped")
    } else {
        None
    }
}

} // verus!
