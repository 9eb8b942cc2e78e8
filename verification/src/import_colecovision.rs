//! What the ColecoVision DAT import states beyond the shared fold: the TV
//! standard a release's markets imply.
use vstd::prelude::*;

use crate::platform::TvStandard;
use crate::region::Region;

verus! {

pub open spec fn is_ntsc_market(r: Region) -> bool {
    r == Region::Usa || r == Region::Canada || r == Region::Japan || r == Region::Taiwan || r == Region::Korea
}

/// The standard the release's markets sold: any NTSC market makes it NTSC;
/// Brazil's machines presented PAL-M, so a Brazil-only release is PAL-M;
/// anything else is PAL.
pub open spec fn coleco_tv(regions: Seq<Region>) -> Option<TvStandard> {
    if regions.len() == 0 {
        None
    } else if exists|i: int| 0 <= i < regions.len() && is_ntsc_market(#[trigger] regions[i]) {
        Some(TvStandard::Ntsc)
    } else if forall|i: int| 0 <= i < regions.len() ==> #[trigger] regions[i] == Region::Brazil {
        Some(TvStandard::PalM)
    } else {
        Some(TvStandard::Pal)
    }
}

/// The ColecoVision's NTSC markets decide: a release sold in the USA,
/// Canada, Japan, Taiwan or Korea is NTSC-authored whatever else it was sold
/// in; one sold in Brazil alone is PAL-M; one sold only in other markets, at
/// least one of them not Brazil, is PAL; one with no market states none.
pub proof fn lemma_coleco_markets(regions: Seq<Region>, i: int)
    ensures
        regions.len() == 0 ==> coleco_tv(regions) is None,
        0 <= i < regions.len() && (regions[i] == Region::Usa || regions[i] == Region::Canada || regions[i]
            == Region::Japan || regions[i] == Region::Taiwan || regions[i] == Region::Korea) ==> coleco_tv(regions)
            == Some(TvStandard::Ntsc),
        regions.len() > 0 && (forall|k: int| 0 <= k < regions.len() ==> #[trigger] regions[k] == Region::Brazil)
            ==> coleco_tv(regions) == Some(TvStandard::PalM),
        0 <= i < regions.len() && regions[i] != Region::Brazil && (forall|k: int|
            0 <= k < regions.len() ==> #[trigger] regions[k] != Region::Usa && regions[k] != Region::Canada
                && regions[k] != Region::Japan && regions[k] != Region::Taiwan && regions[k] != Region::Korea)
            ==> coleco_tv(regions) == Some(TvStandard::Pal),
{
    if regions.len() > 0 && (forall|k: int| 0 <= k < regions.len() ==> #[trigger] regions[k] == Region::Brazil) {
        assert(!is_ntsc_market(Region::Brazil));
        assert(forall|k: int| 0 <= k < regions.len() ==> !is_ntsc_market(#[trigger] regions[k]));
    }
    if 0 <= i < regions.len() && regions[i] != Region::Brazil {
        assert(!(forall|k: int| 0 <= k < regions.len() ==> #[trigger] regions[k] == Region::Brazil));
    }
}

/// The standard the release's markets sold.
pub fn tv_format(regions: &Vec<Region>) -> (r: Option<TvStandard>)
    ensures
        r == coleco_tv(regions@),
{
    if regions.len() == 0 {
        return None;
    }
    let mut i: usize = 0;
    let mut all_brazil = true;
    while i < regions.len()
        invariant
            i <= regions@.len(),
            forall|k: int| 0 <= k < i ==> !is_ntsc_market(#[trigger] regions@[k]),
            all_brazil == forall|k: int| 0 <= k < i ==> #[trigger] regions@[k] == Region::Brazil,
        decreases regions@.len() - i,
    {
        let r = regions[i];
        if r == Region::Usa || r == Region::Canada || r == Region::Japan || r == Region::Taiwan || r == Region::Korea {
            assert(is_ntsc_market(regions@[i as int]));
            return Some(TvStandard::Ntsc);
        }
        all_brazil = all_brazil && r == Region::Brazil;
        i = i + 1;
    }
    if all_brazil {
        Some(TvStandard::PalM)
    } else {
        Some(TvStandard::Pal)
    }
}

} // verus!
