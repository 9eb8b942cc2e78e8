//! The games a No-Intro import writes: the DAT entries sharing a title
//! become one game's releases, in a fixed order, and take the catalogue
//! fields of the old entry their dumps reach; prev entries no DAT entry
//! reaches are carried over as they were.
use vstd::prelude::*;

use crate::fix_slugs::{lemma_token_set, lemma_token_set_len, lex_less, lex_lt, token_set, token_set_of};
use crate::game::{Artifact, Game, GameKind, Language, Link, LinkType, Release, ReleaseStatus};
use crate::import_nointro::{
    DatDump, DatRom, DatSystem, OldEntry, brackets_balanced_so_far, dat_system, entry_dumps, entry_notes,
    header_system, is_bios_entry, joined, lemma_notes_bound, lemma_rom_notes_bound, name_chunks, name_facts,
    name_title, parse_name, rom_dumps, ParsedName, Stats, assign_slugs, check_preserved, dropped_line, dump_view, game_titles,
    group_kind_of, hash_lists, old_matches, old_view, old_views, preservation, shares_hash, sharers, slugs_assigned,
    lost_of, suffixed_lines, text_view,
};
use crate::ids::is_sha1_text;
use crate::tree::games_hashes;
use crate::verify_hashes::{artifact_hashes, game_hashes, release_hashes};
use crate::legacy::LegacyManifest;
use crate::migrate_homebrew::{
    copy_link, debug_strings, legacy_hashes, legacy_regions, link_view, opt_text, region_note,
};
use crate::ids::Sha1;
use crate::text::parse_region_list;
use crate::report::{Report, SectionView, distinct_headings, filed, lemma_filed, note_views, push_note, total_items};
use crate::order::{insert_by, lemma_insert_at, sort_by};
use crate::platform::{Feature, GameBoy, GameBoyColor, GbHardware, GbcHardware, Platform};
use crate::region::Region;
use crate::strings::{chars_of, debug_quoted, debug_str, owned, push_str, starts_with, str_eq, views};

verus! {

broadcast use vstd::string::group_string_axioms;

/// A DAT entry routed to a tree: what its name says, its dumps, and whether
/// it came from the Game Boy Color DAT.
#[derive(Clone, Debug)]
pub struct DatEntry {
    pub parsed: ParsedName,
    pub dumps: Vec<DatDump>,
    pub from_gbc_dat: bool,
}

/// An old commercial entry of a tree a DAT import replaces.
#[derive(Clone, Debug)]
pub struct OldCommercial {
    pub tree: String,
    pub slug: String,
    pub manifest: LegacyManifest,
}

/// The name `{:?}` prints for a region.
pub open spec fn region_name(r: Region) -> Seq<char> {
    match r {
        Region::Japan => "Japan"@,
        Region::Usa => "Usa"@,
        Region::Europe => "Europe"@,
        Region::World => "World"@,
        Region::Taiwan => "Taiwan"@,
        Region::Germany => "Germany"@,
        Region::France => "France"@,
        Region::China => "China"@,
        Region::Spain => "Spain"@,
        Region::Italy => "Italy"@,
        Region::Australia => "Australia"@,
        Region::UnitedKingdom => "UnitedKingdom"@,
        Region::Korea => "Korea"@,
        Region::HongKong => "HongKong"@,
        Region::Sweden => "Sweden"@,
        Region::Netherlands => "Netherlands"@,
        Region::Canada => "Canada"@,
        Region::Brazil => "Brazil"@,
        Region::Argentina => "Argentina"@,
        Region::Singapore => "Singapore"@,
        Region::Thailand => "Thailand"@,
        Region::NewZealand => "NewZealand"@,
    }
}

fn region_text(r: Region) -> (s: &'static str)
    ensures
        s@ == region_name(r),
{
    match r {
        Region::Japan => "Japan",
        Region::Usa => "Usa",
        Region::Europe => "Europe",
        Region::World => "World",
        Region::Taiwan => "Taiwan",
        Region::Germany => "Germany",
        Region::France => "France",
        Region::China => "China",
        Region::Spain => "Spain",
        Region::Italy => "Italy",
        Region::Australia => "Australia",
        Region::UnitedKingdom => "UnitedKingdom",
        Region::Korea => "Korea",
        Region::HongKong => "HongKong",
        Region::Sweden => "Sweden",
        Region::Netherlands => "Netherlands",
        Region::Canada => "Canada",
        Region::Brazil => "Brazil",
        Region::Argentina => "Argentina",
        Region::Singapore => "Singapore",
        Region::Thailand => "Thailand",
        Region::NewZealand => "NewZealand",
    }
}

pub open spec fn region_items(rs: Seq<Region>) -> Seq<char>
    decreases rs.len(),
{
    if rs.len() == 0 {
        Seq::empty()
    } else if rs.len() == 1 {
        region_name(rs[0])
    } else {
        region_items(rs.drop_last()) + ", "@ + region_name(rs.last())
    }
}

/// The text `{:?}` prints for a list of regions.
pub open spec fn regions_debug(rs: Seq<Region>) -> Seq<char> {
    "["@ + region_items(rs) + "]"@
}

fn regions_text(rs: &Vec<Region>) -> (r: Vec<char>)
    ensures
        r@ == regions_debug(rs@),
{
    let mut out = owned("[");
    let mut k: usize = 0;
    assert(rs@.take(0) =~= Seq::<Region>::empty());
    while k < rs.len()
        invariant
            k <= rs@.len(),
            out@ == "["@ + region_items(rs@.take(k as int)),
        decreases rs@.len() - k,
    {
        let ghost pre = rs@.take(k + 1);
        assert(pre.drop_last() =~= rs@.take(k as int));
        assert(pre.last() == rs@[k as int]);
        if k > 0 {
            push_str(&mut out, ", ");
        } else {
            assert(pre =~= seq![rs@[0]]);
        }
        push_str(&mut out, region_text(rs[k]));
        k = k + 1;
    }
    assert(rs@.take(rs@.len() as int) == rs@);
    push_str(&mut out, "]");
    chars_of(out.as_str())
}

pub open spec fn label_text(e: DatEntry) -> Seq<char> {
    match e.parsed.label {
        Some(l) => l@,
        None => Seq::empty(),
    }
}

pub open spec fn first_hash(e: DatEntry) -> Seq<char> {
    e.dumps@[0].sha1@
}

/// The order of a title's DAT entries: by label, then by region list as
/// `{:?}` prints it, then by first dump.
pub open spec fn entry_before(a: DatEntry, b: DatEntry) -> bool {
    if label_text(a) != label_text(b) {
        lex_lt(label_text(a), label_text(b))
    } else if regions_debug(a.parsed.regions@) != regions_debug(b.parsed.regions@) {
        lex_lt(regions_debug(a.parsed.regions@), regions_debug(b.parsed.regions@))
    } else {
        lex_lt(first_hash(a), first_hash(b))
    }
}

pub open spec fn entry_order(es: Seq<DatEntry>) -> spec_fn(int, int) -> bool {
    |a: int, b: int| entry_before(es[a], es[b])
}

fn same_chars(a: &Vec<char>, b: &Vec<char>) -> (r: bool)
    ensures
        r == (a@ == b@),
{
    if a.len() != b.len() {
        return false;
    }
    let mut i: usize = 0;
    while i < a.len()
        invariant
            a@.len() == b@.len(),
            i <= a@.len(),
            forall|j: int| 0 <= j < i ==> a@[j] == b@[j],
        decreases a@.len() - i,
    {
        if a[i] != b[i] {
            return false;
        }
        i = i + 1;
    }
    assert(a@ =~= b@);
    true
}

fn entry_less(a: &DatEntry, b: &DatEntry) -> (r: bool)
    requires
        a.dumps@.len() > 0,
        b.dumps@.len() > 0,
    ensures
        r == entry_before(*a, *b),
{
    let la = match &a.parsed.label {
        Some(l) => chars_of(l.as_str()),
        None => Vec::new(),
    };
    let lb = match &b.parsed.label {
        Some(l) => chars_of(l.as_str()),
        None => Vec::new(),
    };
    if !same_chars(&la, &lb) {
        return lex_less(&la, &lb);
    }
    let ra = regions_text(&a.parsed.regions);
    let rb = regions_text(&b.parsed.regions);
    if !same_chars(&ra, &rb) {
        return lex_less(&ra, &rb);
    }
    let ha = chars_of(a.dumps[0].sha1.as_str());
    let hb = chars_of(b.dumps[0].sha1.as_str());
    lex_less(&ha, &hb)
}

/// A title's DAT entries (indices into `es`), stably sorted.
fn sorted_entries(es: &Vec<DatEntry>, members: &Vec<usize>) -> (r: Vec<usize>)
    requires
        forall|i: int| 0 <= i < es@.len() ==> (#[trigger] es@[i]).dumps@.len() > 0,
        forall|j: int| 0 <= j < members@.len() ==> members@[j] < es@.len(),
    ensures
        ints(r@) == sort_by(ints(members@), entry_order(es@)),
        forall|j: int| 0 <= j < r@.len() ==> r@[j] < es@.len(),
{
    let ghost all = ints(members@);
    let mut sorted: Vec<usize> = Vec::new();
    let mut x: usize = 0;
    assert(all.take(0) =~= Seq::<int>::empty());
    assert(ints(sorted@) =~= Seq::<int>::empty());
    while x < members.len()
        invariant
            x <= members@.len(),
            all == ints(members@),
            forall|i: int| 0 <= i < es@.len() ==> (#[trigger] es@[i]).dumps@.len() > 0,
            forall|j: int| 0 <= j < members@.len() ==> members@[j] < es@.len(),
            ints(sorted@) == sort_by(all.take(x as int), entry_order(es@)),
            forall|j: int| 0 <= j < sorted@.len() ==> sorted@[j] < es@.len(),
        decreases members@.len() - x,
    {
        let ghost s = ints(sorted@);
        let m = members[x];
        let mut p = sorted.len();
        while p > 0 && entry_less(&es[m], &es[sorted[p - 1]])
            invariant
                p <= sorted@.len(),
                m < es@.len(),
                s == ints(sorted@),
                forall|i: int| 0 <= i < es@.len() ==> (#[trigger] es@[i]).dumps@.len() > 0,
                forall|j: int| 0 <= j < sorted@.len() ==> sorted@[j] < es@.len(),
                forall|j: int| p <= j < s.len() ==> entry_order(es@)(m as int, #[trigger] s[j]),
            decreases p,
        {
            p = p - 1;
        }
        proof {
            lemma_insert_at(s, m as int, p as int, entry_order(es@));
            assert(all.take(x + 1).drop_last() =~= all.take(x as int));
            assert(all.take(x + 1).last() == m as int);
        }
        sorted.insert(p, m);
        assert(ints(sorted@) =~= s.take(p as int).push(m as int) + s.skip(p as int));
        x = x + 1;
    }
    assert(all.take(members@.len() as int) == all);
    sorted
}

pub open spec fn ints(v: Seq<usize>) -> Seq<int> {
    v.map_values(|i: usize| i as int)
}

/// The features a Game Boy release drives that its DAT entry states: a
/// Super Game Boy where the name says so, Game Boy Color colours where the
/// name says so or the entry came from the Color DAT.
pub open spec fn gb_features(e: DatEntry) -> Seq<Feature> {
    (if e.parsed.sgb {
        seq![Feature::SuperGameBoyEnhanced]
    } else {
        Seq::empty()
    }) + (if e.parsed.cgb || e.from_gbc_dat {
        seq![Feature::GameBoyColorEnhanced]
    } else {
        Seq::empty()
    })
}

/// What a tree's release hardware takes from a DAT entry.
pub trait DatHardware: Platform + Sized {
    spec fn hardware_ok(h: Self::ReleaseHardware, e: DatEntry) -> bool;

    /// Hardware that states nothing: the platform's default.
    spec fn is_plain(h: Self::ReleaseHardware) -> bool;

    fn entry_hardware(e: &DatEntry) -> (h: Self::ReleaseHardware)
        ensures
            Self::hardware_ok(h, *e),
    ;

    fn plain_hardware() -> (h: Self::ReleaseHardware)
        ensures
            Self::is_plain(h),
    ;
}

impl DatHardware for GameBoy {
    open spec fn hardware_ok(h: GbHardware, e: DatEntry) -> bool {
        h.features@ == gb_features(e) && h.cart_type is None
    }

    open spec fn is_plain(h: GbHardware) -> bool {
        h.features@.len() == 0 && h.cart_type is None
    }

    fn plain_hardware() -> (h: GbHardware) {
        GbHardware { features: Vec::new(), cart_type: None }
    }

    fn entry_hardware(e: &DatEntry) -> (h: GbHardware) {
        let mut features: Vec<Feature> = Vec::new();
        if e.parsed.sgb {
            features.push(Feature::SuperGameBoyEnhanced);
        }
        if e.parsed.cgb || e.from_gbc_dat {
            features.push(Feature::GameBoyColorEnhanced);
        }
        assert(features@ =~= gb_features(*e));
        GbHardware { features, cart_type: None }
    }
}

impl DatHardware for GameBoyColor {
    open spec fn hardware_ok(h: GbcHardware, e: DatEntry) -> bool {
        h.cart_type is None
    }

    open spec fn is_plain(h: GbcHardware) -> bool {
        h.cart_type is None
    }

    fn plain_hardware() -> (h: GbcHardware) {
        GbcHardware { cart_type: None }
    }

    fn entry_hardware(e: &DatEntry) -> (h: GbcHardware) {
        GbcHardware { cart_type: None }
    }
}

/// A title's entries (indices into `es`) in release order.
pub open spec fn ordered(es: Seq<DatEntry>, members: Seq<int>) -> Seq<int> {
    sort_by(members, entry_order(es))
}

/// The hashes of the dumps of the entries, in order.
pub open spec fn ordered_hashes(es: Seq<DatEntry>, ord: Seq<int>) -> Seq<Seq<char>>
    decreases ord.len(),
{
    if ord.len() == 0 {
        Seq::empty()
    } else {
        ordered_hashes(es, ord.drop_last()) + es[ord.last()].dumps@.map_values(|d: DatDump| d.sha1@)
    }
}

pub open spec fn ordered_kinds(es: Seq<DatEntry>, ord: Seq<int>) -> Seq<GameKind> {
    ord.map_values(|i: int| es[i].parsed.kind)
}

pub open spec fn old_hash_lists(prev: Seq<OldCommercial>) -> Seq<Seq<Seq<char>>> {
    prev.map_values(|o: OldCommercial| views(o.manifest.hashes@))
}

/// The release a DAT entry becomes, with the publisher of the old entry
/// merged in.
pub open spec fn is_entry_release<P: DatHardware>(r: Release<P>, e: DatEntry, merged: Option<LegacyManifest>) -> bool {
    &&& r.title is None
    &&& text_view(r.label) == text_view(e.parsed.label)
    &&& r.regions@ == e.parsed.regions@
    &&& match (r.date, e.parsed.date) {
        (Some(a), Some(b)) => a@ == b@,
        (None, None) => true,
        _ => false,
    }
    &&& opt_text(r.publisher) == match merged {
        Some(m) => opt_text(m.publisher),
        None => None,
    }
    &&& r.status == ReleaseStatus::Released
    &&& P::hardware_ok(r.hardware, e)
    &&& r.artifacts@.len() == e.dumps@.len()
    &&& forall|k: int|
        0 <= k < r.artifacts@.len() ==> {
            &&& (#[trigger] r.artifacts@[k]).sha1@ == e.dumps@[k].sha1@
            &&& r.artifacts@[k].size == e.dumps@[k].size
            &&& r.artifacts@[k].label is None
            &&& r.artifacts@[k].defect is None
        }
}

/// The game a title's DAT entries (`ord`, in release order) become, with
/// the catalogue fields of the old entry merged in.
pub open spec fn is_built_game<P: DatHardware>(
    g: Game<P>,
    title: Seq<char>,
    es: Seq<DatEntry>,
    ord: Seq<int>,
    merged: Option<LegacyManifest>,
) -> bool {
    &&& g.title@ == title
    &&& g.kind == group_kind_of(ordered_kinds(es, ord))
    &&& opt_text(g.developer) == match merged {
        Some(m) => opt_text(m.developer),
        None => None,
    }
    &&& opt_text(g.description) == match merged {
        Some(m) => opt_text(m.description),
        None => None,
    }
    &&& views(g.tags@) == match merged {
        Some(m) => views(m.tags@),
        None => Seq::empty(),
    }
    &&& g.links@.map_values(|l: Link| link_view(l)) == match merged {
        Some(m) => m.links@.map_values(|l: Link| link_view(l)),
        None => Seq::empty(),
    }
    &&& g.covers@.len() == 0
    &&& g.screenshots@.len() == 0
    &&& g.mod_of is None
    &&& g.mods@.len() == 0
    &&& !g.curated
    &&& !g.adult
    &&& g.recommended_by@.len() == 0
    &&& g.releases@.len() == ord.len()
    &&& forall|k: int| 0 <= k < ord.len() ==> is_entry_release(#[trigger] g.releases@[k], es[ord[k]], merged)
}

/// `tree/slug` for each of the old entries, comma-separated.
pub open spec fn merged_list(prev: Seq<OldCommercial>, idx: Seq<int>) -> Seq<char>
    decreases idx.len(),
{
    if idx.len() == 0 {
        Seq::empty()
    } else if idx.len() == 1 {
        prev[idx[0]].tree@ + "/"@ + prev[idx[0]].slug@
    } else {
        merged_list(prev, idx.drop_last()) + ", "@ + prev[idx.last()].tree@ + "/"@ + prev[idx.last()].slug@
    }
}

pub open spec fn merge_note(title: Seq<char>, prev: Seq<OldCommercial>, idx: Seq<int>) -> Seq<(Seq<char>, Seq<char>)> {
    if idx.len() > 1 {
        seq![("Multiple old entries merged into one game"@, debug_str(title) + " ← "@ + merged_list(prev, idx))]
    } else {
        Seq::empty()
    }
}

fn copy_strings(v: &Vec<String>) -> (r: Vec<String>)
    ensures
        views(r@) == views(v@),
{
    let mut out: Vec<String> = Vec::new();
    let mut i: usize = 0;
    while i < v.len()
        invariant
            i <= v@.len(),
            views(out@) == views(v@).take(i as int),
        decreases v@.len() - i,
    {
        let ghost before = views(out@);
        out.push(owned(v[i].as_str()));
        assert(views(out@) =~= before.push(v@[i as int]@));
        assert(views(v@).take(i + 1) =~= views(v@).take(i as int).push(v@[i as int]@));
        i = i + 1;
    }
    assert(views(v@).take(v@.len() as int) == views(v@));
    out
}

fn copy_text(o: &Option<String>) -> (r: Option<String>)
    ensures
        opt_text(r) == opt_text(*o),
{
    match o {
        Some(s) => Some(owned(s.as_str())),
        None => None,
    }
}

fn copy_links(ls: &Vec<Link>) -> (r: Vec<Link>)
    ensures
        r@.map_values(|l: Link| link_view(l)) == ls@.map_values(|l: Link| link_view(l)),
{
    let mut links: Vec<Link> = Vec::new();
    let mut q: usize = 0;
    while q < ls.len()
        invariant
            q <= ls@.len(),
            links@.map_values(|l: Link| link_view(l)) == ls@.take(q as int).map_values(|l: Link| link_view(l)),
        decreases ls@.len() - q,
    {
        let ghost lv = links@.map_values(|l: Link| link_view(l));
        links.push(copy_link(&ls[q]));
        assert(links@.map_values(|l: Link| link_view(l)) =~= lv.push(link_view(ls@[q as int])));
        assert(ls@.take(q + 1).map_values(|l: Link| link_view(l)) =~= ls@.take(q as int).map_values(
            |l: Link| link_view(l),
        ).push(link_view(ls@[q as int])));
        q = q + 1;
    }
    assert(ls@.take(ls@.len() as int) == ls@);
    links
}

fn entry_release<P: DatHardware>(e: &DatEntry, merged: Option<&LegacyManifest>) -> (r: Release<P>)
    ensures
        is_entry_release(r, *e, match merged {
            Some(m) => Some(*m),
            None => None,
        }),
{
    let mut regions: Vec<Region> = Vec::new();
    let mut i: usize = 0;
    while i < e.parsed.regions.len()
        invariant
            i <= e.parsed.regions@.len(),
            regions@ == e.parsed.regions@.take(i as int),
        decreases e.parsed.regions@.len() - i,
    {
        regions.push(e.parsed.regions[i]);
        assert(e.parsed.regions@.take(i + 1) =~= e.parsed.regions@.take(i as int).push(e.parsed.regions@[i as int]));
        i = i + 1;
    }
    assert(e.parsed.regions@.take(e.parsed.regions@.len() as int) == e.parsed.regions@);
    let mut artifacts: Vec<Artifact> = Vec::new();
    let mut k: usize = 0;
    while k < e.dumps.len()
        invariant
            k <= e.dumps@.len(),
            artifacts@.len() == k,
            forall|j: int|
                0 <= j < k ==> {
                    &&& (#[trigger] artifacts@[j]).sha1@ == e.dumps@[j].sha1@
                    &&& artifacts@[j].size == e.dumps@[j].size
                    &&& artifacts@[j].label is None
                    &&& artifacts@[j].defect is None
                },
        decreases e.dumps@.len() - k,
    {
        artifacts.push(Artifact { sha1: e.dumps[k].sha1.clone(), label: None, defect: None, size: e.dumps[k].size });
        k = k + 1;
    }
    let date = match &e.parsed.date {
        Some(d) => Some(d.clone()),
        None => None,
    };
    let publisher = match merged {
        Some(m) => copy_text(&m.publisher),
        None => None,
    };
    Release {
        title: None,
        label: copy_text(&e.parsed.label),
        regions,
        date,
        publisher,
        status: ReleaseStatus::Released,
        hardware: P::entry_hardware(e),
        artifacts,
    }
}

/// The old entry a game takes its catalogue fields from: the first of those
/// its dumps reach.
pub open spec fn merged_of(prev: Seq<OldCommercial>, matches: Seq<int>) -> Option<LegacyManifest> {
    if matches.len() > 0 {
        Some(prev[matches[0]].manifest)
    } else {
        None
    }
}

fn merged_text(prev: &Vec<OldCommercial>, idx: &Vec<usize>) -> (r: String)
    requires
        forall|j: int| 0 <= j < idx@.len() ==> idx@[j] < prev@.len(),
    ensures
        r@ == merged_list(prev@, ints(idx@)),
{
    let mut out = String::new();
    let mut k: usize = 0;
    assert(ints(idx@).take(0) =~= Seq::<int>::empty());
    assert(out@ == merged_list(prev@, Seq::<int>::empty()));
    while k < idx.len()
        invariant
            k <= idx@.len(),
            forall|j: int| 0 <= j < idx@.len() ==> idx@[j] < prev@.len(),
            out@ == merged_list(prev@, ints(idx@).take(k as int)),
        decreases idx@.len() - k,
    {
        let ghost pre = ints(idx@).take(k + 1);
        assert(pre.drop_last() =~= ints(idx@).take(k as int));
        assert(pre.last() == idx@[k as int] as int);
        if k > 0 {
            push_str(&mut out, ", ");
        } else {
            assert(pre =~= seq![idx@[0] as int]);
        }
        let o = &prev[idx[k]];
        push_str(&mut out, o.tree.as_str());
        push_str(&mut out, "/");
        push_str(&mut out, o.slug.as_str());
        k = k + 1;
    }
    assert(ints(idx@).take(idx@.len() as int) == ints(idx@));
    out
}

/// Builds the game a title's DAT entries (`members`, indices into `es`)
/// become: the entries, in release order, become its releases; it takes its
/// kind from the first entry that is not a plain game, and its catalogue
/// fields (and each release its publisher) from the first old entry its
/// dumps reach. Returns the game and the old entries its dumps reach,
/// ascending; reaching more than one is reported.
pub fn build_game<P: DatHardware>(
    title: &str,
    es: &Vec<DatEntry>,
    members: &Vec<usize>,
    prev: &Vec<OldCommercial>,
    old_hashes: &Vec<Vec<String>>,
    notes: &mut Vec<(String, String)>,
) -> (r: (Game<P>, Vec<usize>))
    requires
        forall|i: int| 0 <= i < es@.len() ==> (#[trigger] es@[i]).dumps@.len() > 0,
        forall|j: int| 0 <= j < members@.len() ==> members@[j] < es@.len(),
        hash_lists(old_hashes@) == old_hash_lists(prev@),
    ensures
        forall|a: int, b: int| 0 <= a < b < r.1@.len() ==> r.1@[a] < r.1@[b],
        forall|k: int|
            0 <= k < r.1@.len() ==> r.1@[k] < prev@.len() && shares_hash(
                old_hash_lists(prev@)[r.1@[k] as int],
                ordered_hashes(es@, ordered(es@, ints(members@))),
            ),
        forall|i: int|
            0 <= i < prev@.len() && shares_hash(
                old_hash_lists(prev@)[i],
                ordered_hashes(es@, ordered(es@, ints(members@))),
            ) ==> r.1@.contains(i as usize),
        ints(r.1@) == sharers(old_hash_lists(prev@), ordered_hashes(es@, ordered(es@, ints(members@))), prev@.len() as int),
        is_built_game(r.0, title@, es@, ordered(es@, ints(members@)), merged_of(prev@, ints(r.1@))),
        note_views(final(notes)@) == note_views(old(notes)@) + merge_note(title@, prev@, ints(r.1@)),
{
    let ord = sorted_entries(es, members);
    let ghost o = ints(ord@);
    assert(o == ordered(es@, ints(members@)));
    let mut kinds: Vec<GameKind> = Vec::new();
    let mut found: Vec<String> = Vec::new();
    let mut k: usize = 0;
    assert(ordered_kinds(es@, o).take(0) =~= Seq::<GameKind>::empty());
    assert(o.take(0) =~= Seq::<int>::empty());
    assert(views(found@) =~= ordered_hashes(es@, o.take(0)));
    while k < ord.len()
        invariant
            k <= ord@.len(),
            o == ints(ord@),
            forall|j: int| 0 <= j < ord@.len() ==> ord@[j] < es@.len(),
            kinds@ == ordered_kinds(es@, o).take(k as int),
            views(found@) == ordered_hashes(es@, o.take(k as int)),
        decreases ord@.len() - k,
    {
        let e = &es[ord[k]];
        kinds.push(e.parsed.kind);
        assert(ordered_kinds(es@, o).take(k + 1) =~= ordered_kinds(es@, o).take(k as int).push(e.parsed.kind));
        let ghost f0 = views(found@);
        let mut d: usize = 0;
        while d < e.dumps.len()
            invariant
                d <= e.dumps@.len(),
                views(found@) == f0 + e.dumps@.take(d as int).map_values(|x: DatDump| x.sha1@),
            decreases e.dumps@.len() - d,
        {
            let ghost before = views(found@);
            found.push(owned(e.dumps[d].sha1.as_str()));
            assert(views(found@) =~= before.push(e.dumps@[d as int].sha1@));
            assert(e.dumps@.take(d + 1).map_values(|x: DatDump| x.sha1@) =~= e.dumps@.take(d as int).map_values(
                |x: DatDump| x.sha1@,
            ).push(e.dumps@[d as int].sha1@));
            d = d + 1;
        }
        assert(e.dumps@.take(e.dumps@.len() as int) == e.dumps@);
        assert(o.take(k + 1).drop_last() =~= o.take(k as int));
        assert(o.take(k + 1).last() == ord@[k as int] as int);
        k = k + 1;
    }
    assert(o.take(o.len() as int) == o);
    assert(ordered_kinds(es@, o).take(o.len() as int) == ordered_kinds(es@, o));
    let kind = crate::import_nointro::group_kind(&kinds);
    let matches = old_matches(&found, old_hashes);
    assert(old_hashes@.len() == hash_lists(old_hashes@).len());
    assert(prev@.len() == old_hash_lists(prev@).len());
    assert forall|i: int| 0 <= i < old_hashes@.len() implies #[trigger] hash_lists(old_hashes@)[i] == views(
        old_hashes@[i]@,
    ) by {}
    let ghost before = note_views(notes@);
    if matches.len() > 1 {
        let mut line = debug_quoted(title);
        push_str(&mut line, " ← ");
        let listed = merged_text(prev, &matches);
        push_str(&mut line, listed.as_str());
        push_note(notes, "Multiple old entries merged into one game", line);
    }
    assert(note_views(notes@) =~= before + merge_note(title@, prev@, ints(matches@)));
    let merged: Option<&LegacyManifest> = if matches.len() > 0 {
        Some(&prev[matches[0]].manifest)
    } else {
        None
    };
    let ghost mg = merged_of(prev@, ints(matches@));
    assert(mg == match merged {
        Some(m) => Some(*m),
        None => None::<LegacyManifest>,
    });
    let mut releases: Vec<Release<P>> = Vec::new();
    let mut k: usize = 0;
    while k < ord.len()
        invariant
            k <= ord@.len(),
            o == ints(ord@),
            forall|j: int| 0 <= j < ord@.len() ==> ord@[j] < es@.len(),
            mg == match merged {
                Some(m) => Some(*m),
                None => None::<LegacyManifest>,
            },
            releases@.len() == k,
            forall|j: int| 0 <= j < k ==> is_entry_release(#[trigger] releases@[j], es@[o[j]], mg),
        decreases ord@.len() - k,
    {
        releases.push(entry_release::<P>(&es[ord[k]], merged));
        k = k + 1;
    }
    let (developer, description, tags, links) = match merged {
        Some(m) => (copy_text(&m.developer), copy_text(&m.description), copy_strings(&m.tags), copy_links(&m.links)),
        None => {
            let links: Vec<Link> = Vec::new();
            let tags: Vec<String> = Vec::new();
            assert(views(tags@) =~= Seq::<Seq<char>>::empty());
            assert(links@.map_values(|l: Link| link_view(l)) =~= Seq::<(Seq<char>, Seq<char>, LinkType, Seq<Language>)>::empty());
            (None, None, tags, links)
        },
    };
    let game = Game {
        title: owned(title),
        kind,
        developer,
        description,
        tags,
        links,
        covers: Vec::new(),
        screenshots: Vec::new(),
        mod_of: None,
        mods: Vec::new(),
        curated: false,
        adult: false,
        recommended_by: Vec::new(),
        releases,
    };
    (game, matches)
}

/// An old entry as the report names it: `tree/slug`.
pub open spec fn old_at(o: OldCommercial) -> Seq<char> {
    o.tree@ + "/"@ + o.slug@
}

/// What carrying an old entry over files: the entry itself, and its region
/// text where it does not read.
pub open spec fn leftover_notes(o: OldCommercial) -> Seq<(Seq<char>, Seq<char>)> {
    seq![("Leftover old entries (not in any DAT) — mechanically converted"@, old_at(o))] + region_note(
        old_at(o),
        opt_text(o.manifest.region),
    )
}

/// The game an old entry no DAT entry reaches is carried over as: its
/// catalogue fields, and one release with its regions (where they read),
/// its publisher, plain hardware, and a dump for each of its hashes that
/// reads.
pub open spec fn is_leftover_game<P: DatHardware>(g: Game<P>, o: OldCommercial) -> bool {
    let m = o.manifest;
    &&& g.title@ == m.title@
    &&& g.kind == GameKind::Game
    &&& opt_text(g.developer) == opt_text(m.developer)
    &&& opt_text(g.description) == opt_text(m.description)
    &&& views(g.tags@) == views(m.tags@)
    &&& g.links@.map_values(|l: Link| link_view(l)) == m.links@.map_values(|l: Link| link_view(l))
    &&& g.covers@.len() == 0
    &&& g.screenshots@.len() == 0
    &&& g.mod_of is None
    &&& g.mods@.len() == 0
    &&& !g.curated
    &&& !g.adult
    &&& g.recommended_by@.len() == 0
    &&& g.releases@.len() == 1
    &&& g.releases@[0].title is None
    &&& g.releases@[0].label is None
    &&& g.releases@[0].regions@ == legacy_regions(opt_text(m.region))
    &&& g.releases@[0].date is None
    &&& opt_text(g.releases@[0].publisher) == opt_text(m.publisher)
    &&& g.releases@[0].status == ReleaseStatus::Released
    &&& P::is_plain(g.releases@[0].hardware)
    &&& g.releases@[0].artifacts@.map_values(|a: Artifact| a.sha1@) == legacy_hashes(views(m.hashes@))
    &&& forall|k: int|
        0 <= k < g.releases@[0].artifacts@.len() ==> (#[trigger] g.releases@[0].artifacts@[k]).label is None
            && g.releases@[0].artifacts@[k].defect is None && g.releases@[0].artifacts@[k].size is None
}

/// Carries over an old entry no DAT entry reaches; the report lines go to
/// `notes`.
pub fn leftover_game<P: DatHardware>(o: &OldCommercial, notes: &mut Vec<(String, String)>) -> (r: Game<P>)
    ensures
        is_leftover_game(r, *o),
        note_views(final(notes)@) == note_views(old(notes)@) + leftover_notes(*o),
{
    let m = &o.manifest;
    let ghost n0 = note_views(notes@);
    let mut at = owned(o.tree.as_str());
    push_str(&mut at, "/");
    push_str(&mut at, o.slug.as_str());
    push_note(notes, "Leftover old entries (not in any DAT) — mechanically converted", owned(at.as_str()));
    let ghost n1 = note_views(notes@);
    let regions: Vec<Region> = match &m.region {
        None => Vec::new(),
        Some(text) => match parse_region_list(text.as_str()) {
            Ok(rs) => rs,
            Err(unknown) => {
                let mut line = owned(at.as_str());
                push_str(&mut line, ": ");
                let listed = debug_strings(&unknown);
                push_str(&mut line, listed.as_str());
                push_note(notes, "Unmappable region text dropped", line);
                Vec::new()
            },
        },
    };
    assert(note_views(notes@) =~= n0 + leftover_notes(*o));
    let mut artifacts: Vec<Artifact> = Vec::new();
    let mut i: usize = 0;
    assert(views(m.hashes@).take(0) =~= Seq::<Seq<char>>::empty());
    assert(artifacts@.map_values(|a: Artifact| a.sha1@) =~= Seq::<Seq<char>>::empty());
    while i < m.hashes.len()
        invariant
            i <= m.hashes@.len(),
            artifacts@.map_values(|a: Artifact| a.sha1@) == legacy_hashes(views(m.hashes@).take(i as int)),
            forall|k: int|
                0 <= k < artifacts@.len() ==> (#[trigger] artifacts@[k]).label is None && artifacts@[k].defect is None
                    && artifacts@[k].size is None,
        decreases m.hashes@.len() - i,
    {
        let ghost pre = views(m.hashes@).take(i + 1);
        assert(pre.drop_last() =~= views(m.hashes@).take(i as int));
        assert(pre.last() == m.hashes@[i as int]@);
        match Sha1::parse(m.hashes[i].as_str()) {
            Ok(sha1) => {
                let ghost a0 = artifacts@.map_values(|a: Artifact| a.sha1@);
                artifacts.push(Artifact { sha1, label: None, defect: None, size: None });
                assert(artifacts@.map_values(|a: Artifact| a.sha1@) =~= a0.push(
                    crate::strings::lower_seq(m.hashes@[i as int]@),
                ));
            },
            Err(_) => {
                assert(artifacts@.map_values(|a: Artifact| a.sha1@) =~= legacy_hashes(pre));
            },
        }
        i = i + 1;
    }
    assert(views(m.hashes@).take(m.hashes@.len() as int) == views(m.hashes@));
    let release = Release {
        title: None,
        label: None,
        regions,
        date: None,
        publisher: copy_text(&m.publisher),
        status: ReleaseStatus::Released,
        hardware: P::plain_hardware(),
        artifacts,
    };
    let mut releases: Vec<Release<P>> = Vec::new();
    releases.push(release);
    Game {
        title: owned(m.title.as_str()),
        kind: GameKind::Game,
        developer: copy_text(&m.developer),
        description: copy_text(&m.description),
        tags: copy_strings(&m.tags),
        links: copy_links(&m.links),
        covers: Vec::new(),
        screenshots: Vec::new(),
        mod_of: None,
        mods: Vec::new(),
        curated: false,
        adult: false,
        recommended_by: Vec::new(),
        releases,
    }
}

/// Whether a DAT entry goes to the Game Boy tree: every Game Boy entry, and
/// the Color entries that run on the original Game Boy.
pub open spec fn to_gb(e: DatEntry) -> bool {
    !e.from_gbc_dat || e.parsed.gb_compatible
}

/// The titles of the first `n` entries that go to a tree (`gb`: the Game
/// Boy tree, else the Color tree).
pub open spec fn routed_titles(dat: Seq<DatEntry>, gb: bool, n: int) -> Seq<Seq<char>>
    decreases n,
{
    if n <= 0 {
        Seq::empty()
    } else {
        routed_titles(dat, gb, n - 1) + if to_gb(dat[n - 1]) == gb {
            seq![dat[n - 1].parsed.title@]
        } else {
            Seq::empty()
        }
    }
}

/// A tree's titles, in `BTreeMap` key order.
pub open spec fn tree_titles(dat: Seq<DatEntry>, gb: bool) -> Seq<Seq<char>> {
    token_set(routed_titles(dat, gb, dat.len() as int))
}

/// The first `n` entries of title `t` that go to a tree, in DAT order.
pub open spec fn tree_members(dat: Seq<DatEntry>, gb: bool, t: Seq<char>, n: int) -> Seq<int>
    decreases n,
{
    if n <= 0 {
        Seq::empty()
    } else {
        tree_members(dat, gb, t, n - 1) + if to_gb(dat[n - 1]) == gb && dat[n - 1].parsed.title@ == t {
            seq![n - 1]
        } else {
            Seq::empty()
        }
    }
}

pub open spec fn tree_group(dat: Seq<DatEntry>, gb: bool, t: Seq<char>) -> Seq<int> {
    tree_members(dat, gb, t, dat.len() as int)
}

/// The old entries the dumps of title `t`'s entries reach.
pub open spec fn group_matches(dat: Seq<DatEntry>, prev: Seq<OldCommercial>, gb: bool, t: Seq<char>) -> Seq<int> {
    sharers(old_hash_lists(prev), ordered_hashes(dat, ordered(dat, tree_group(dat, gb, t))), prev.len() as int)
}

/// Whether one of the first `k` games of a tree reaches old entry `i`.
pub open spec fn claimed_upto(dat: Seq<DatEntry>, prev: Seq<OldCommercial>, gb: bool, k: int, i: int) -> bool {
    exists|x: int| 0 <= x < k && #[trigger] group_matches(dat, prev, gb, tree_titles(dat, gb)[x]).contains(i)
}

/// How many of the first `k` games of a tree reach an old entry.
pub open spec fn merged_count(dat: Seq<DatEntry>, prev: Seq<OldCommercial>, gb: bool, k: int) -> int
    decreases k,
{
    if k <= 0 {
        0
    } else {
        merged_count(dat, prev, gb, k - 1) + if group_matches(dat, prev, gb, tree_titles(dat, gb)[k - 1]).len() > 0 {
            1int
        } else {
            0int
        }
    }
}

/// What building the first `k` games of a tree files.
pub open spec fn tree_notes(dat: Seq<DatEntry>, prev: Seq<OldCommercial>, gb: bool, k: int) -> Seq<(Seq<char>, Seq<char>)>
    decreases k,
{
    if k <= 0 {
        Seq::empty()
    } else {
        let t = tree_titles(dat, gb)[k - 1];
        tree_notes(dat, prev, gb, k - 1) + merge_note(t, prev, group_matches(dat, prev, gb, t))
    }
}

/// The `x`-th game of a tree is the one its `x`-th title's entries become.
pub open spec fn is_tree_game<P: DatHardware>(
    g: Game<P>,
    dat: Seq<DatEntry>,
    prev: Seq<OldCommercial>,
    gb: bool,
    x: int,
) -> bool {
    let t = tree_titles(dat, gb)[x];
    is_built_game(g, t, dat, ordered(dat, tree_group(dat, gb, t)), merged_of(prev, group_matches(dat, prev, gb, t)))
}

fn routed_title_list(dat: &Vec<DatEntry>, gb: bool) -> (r: Vec<String>)
    ensures
        views(r@) == routed_titles(dat@, gb, dat@.len() as int),
{
    let mut out: Vec<String> = Vec::new();
    let mut i: usize = 0;
    assert(views(out@) =~= routed_titles(dat@, gb, 0));
    while i < dat.len()
        invariant
            i <= dat@.len(),
            views(out@) == routed_titles(dat@, gb, i as int),
        decreases dat@.len() - i,
    {
        let e = &dat[i];
        let ghost before = views(out@);
        if (!e.from_gbc_dat || e.parsed.gb_compatible) == gb {
            out.push(owned(e.parsed.title.as_str()));
            assert(views(out@) =~= before.push(e.parsed.title@));
        } else {
            assert(views(out@) =~= before + Seq::<Seq<char>>::empty());
        }
        i = i + 1;
    }
    out
}

fn tree_member_list(dat: &Vec<DatEntry>, gb: bool, t: &str) -> (r: Vec<usize>)
    ensures
        ints(r@) == tree_group(dat@, gb, t@),
        forall|j: int| 0 <= j < r@.len() ==> r@[j] < dat@.len(),
{
    let mut out: Vec<usize> = Vec::new();
    let mut i: usize = 0;
    assert(ints(out@) =~= tree_members(dat@, gb, t@, 0));
    while i < dat.len()
        invariant
            i <= dat@.len(),
            ints(out@) == tree_members(dat@, gb, t@, i as int),
            forall|j: int| 0 <= j < out@.len() ==> out@[j] < i,
        decreases dat@.len() - i,
    {
        let e = &dat[i];
        let ghost before = ints(out@);
        if (!e.from_gbc_dat || e.parsed.gb_compatible) == gb && str_eq(e.parsed.title.as_str(), t) {
            out.push(i);
            assert(ints(out@) =~= before.push(i as int));
        } else {
            assert(ints(out@) =~= before + Seq::<int>::empty());
        }
        i = i + 1;
    }
    out
}

proof fn lemma_routed_split(dat: Seq<DatEntry>, n: int)
    requires
        0 <= n <= dat.len(),
    ensures
        routed_titles(dat, true, n).len() + routed_titles(dat, false, n).len() == n,
    decreases n,
{
    if n > 0 {
        lemma_routed_split(dat, n - 1);
    }
}

/// The two trees hold no more titles, between them, than there are entries.
proof fn lemma_titles_bound(dat: Seq<DatEntry>)
    ensures
        tree_titles(dat, true).len() + tree_titles(dat, false).len() <= dat.len(),
{
    lemma_routed_split(dat, dat.len() as int);
    lemma_token_set_len(routed_titles(dat, true, dat.len() as int));
    lemma_token_set_len(routed_titles(dat, false, dat.len() as int));
}

/// Builds a tree's games, title by title: each gets an empty slug, to be
/// assigned; the old entries they reach are marked in `claimed`, the games
/// that reach one counted in `merged`, and the report lines go to `notes`.
fn build_tree<P: DatHardware>(
    dat: &Vec<DatEntry>,
    gb: bool,
    prev: &Vec<OldCommercial>,
    old_hashes: &Vec<Vec<String>>,
    claimed: &mut Vec<bool>,
    merged: &mut usize,
    notes: &mut Vec<(String, String)>,
) -> (r: Vec<(String, Game<P>)>)
    requires
        forall|i: int| 0 <= i < dat@.len() ==> (#[trigger] dat@[i]).dumps@.len() > 0,
        hash_lists(old_hashes@) == old_hash_lists(prev@),
        old(claimed)@.len() == prev@.len(),
        *old(merged) + tree_titles(dat@, gb).len() < usize::MAX,
    ensures
        r@.len() == tree_titles(dat@, gb).len(),
        forall|x: int| 0 <= x < r@.len() ==> (#[trigger] r@[x]).0@.len() == 0 && is_tree_game(r@[x].1, dat@, prev@, gb, x),
        final(claimed)@.len() == prev@.len(),
        forall|i: int|
            0 <= i < prev@.len() ==> #[trigger] final(claimed)@[i] == (old(claimed)@[i] || claimed_upto(
                dat@,
                prev@,
                gb,
                tree_titles(dat@, gb).len() as int,
                i,
            )),
        *final(merged) == *old(merged) + merged_count(dat@, prev@, gb, tree_titles(dat@, gb).len() as int),
        note_views(final(notes)@) == note_views(old(notes)@) + tree_notes(
            dat@,
            prev@,
            gb,
            tree_titles(dat@, gb).len() as int,
        ),
{
    let plen = prev.len();
    let raw = routed_title_list(dat, gb);
    let titles = token_set_of(&raw);
    let ghost ts = views(titles@);
    assert(ts == tree_titles(dat@, gb));
    let ghost c0 = claimed@;
    let ghost m0 = *merged;
    let ghost n0 = note_views(notes@);
    let mut games: Vec<(String, Game<P>)> = Vec::new();
    let mut x: usize = 0;
    assert(note_views(notes@) =~= n0 + tree_notes(dat@, prev@, gb, 0));
    assert(titles@.len() == ts.len());
    while x < titles.len()
        invariant
            x <= titles@.len(),
            ts == views(titles@),
            titles@.len() == ts.len(),
            ts == tree_titles(dat@, gb),
            forall|i: int| 0 <= i < dat@.len() ==> (#[trigger] dat@[i]).dumps@.len() > 0,
            hash_lists(old_hashes@) == old_hash_lists(prev@),
            claimed@.len() == prev@.len(),
            c0.len() == prev@.len(),
            plen == prev@.len(),
            m0 + ts.len() < usize::MAX,
            games@.len() == x,
            forall|y: int| 0 <= y < x ==> (#[trigger] games@[y]).0@.len() == 0 && is_tree_game(games@[y].1, dat@, prev@, gb, y),
            forall|i: int| 0 <= i < prev@.len() ==> #[trigger] claimed@[i] == (c0[i] || claimed_upto(dat@, prev@, gb, x as int, i)),
            *merged == m0 + merged_count(dat@, prev@, gb, x as int),
            merged_count(dat@, prev@, gb, x as int) <= x,
            note_views(notes@) == n0 + tree_notes(dat@, prev@, gb, x as int),
        decreases titles@.len() - x,
    {
        let t = &titles[x];
        assert(t@ == ts[x as int]);
        let members = tree_member_list(dat, gb, t.as_str());
        let (game, matches) = build_game::<P>(t.as_str(), dat, &members, prev, old_hashes, notes);
        assert(ints(matches@) == group_matches(dat@, prev@, gb, ts[x as int]));
        let blank = String::new();
        assert(blank@.len() == 0);
        games.push((blank, game));
        let mut k: usize = 0;
        let ghost cb = claimed@;
        while k < matches.len()
            invariant
                k <= matches@.len(),
                claimed@.len() == prev@.len(),
                cb.len() == prev@.len(),
                plen == prev@.len(),
                forall|j: int| 0 <= j < matches@.len() ==> matches@[j] < prev@.len(),
                forall|i: int|
                    0 <= i < prev@.len() ==> #[trigger] claimed@[i] == (cb[i] || matches@.take(k as int).contains(
                        i as usize,
                    )),
            decreases matches@.len() - k,
        {
            let ghost before = claimed@;
            claimed.set(matches[k], true);
            assert(claimed@ == before.update(matches@[k as int] as int, true));
            assert forall|i: int| 0 <= i < prev@.len() implies #[trigger] claimed@[i] == (cb[i] || matches@.take(
                k + 1,
            ).contains(i as usize)) by {
                let m0 = matches@.take(k as int);
                let m1 = matches@.take(k + 1);
                assert(before[i] == (cb[i] || m0.contains(i as usize)));
                if i == matches@[k as int] as int {
                    assert(claimed@[i]);
                    assert(m1[k as int] == matches@[k as int]);
                    assert(m1.contains(i as usize));
                } else {
                    assert(claimed@[i] == before[i]);
                }
                if m0.contains(i as usize) {
                    let j = choose|j: int| 0 <= j < m0.len() && m0[j] == i as usize;
                    assert(m1[j] == i as usize);
                }
                if m1.contains(i as usize) {
                    let j = choose|j: int| 0 <= j < m1.len() && m1[j] == i as usize;
                    if j < k {
                        assert(m0[j] == i as usize);
                    }
                }
                if i == matches@[k as int] as int {
                    assert(matches@.take(k + 1)[k as int] == i as usize);
                }
            }
            k = k + 1;
        }
        assert(matches@.take(matches@.len() as int) == matches@);
        assert forall|i: int| 0 <= i < prev@.len() implies #[trigger] claimed@[i] == (c0[i] || claimed_upto(
            dat@,
            prev@,
            gb,
            x + 1,
            i,
        )) by {
            let g = group_matches(dat@, prev@, gb, ts[x as int]);
            assert(matches@.contains(i as usize) == g.contains(i)) by {
                if matches@.contains(i as usize) {
                    let j = choose|j: int| 0 <= j < matches@.len() && matches@[j] == i as usize;
                    assert(ints(matches@)[j] == i);
                }
                if g.contains(i) {
                    let j = choose|j: int| 0 <= j < g.len() && g[j] == i;
                    assert(ints(matches@)[j] == i);
                    assert(matches@[j] == i as usize);
                }
            }
            if claimed_upto(dat@, prev@, gb, x as int, i) {
                let y = choose|y: int| 0 <= y < x && #[trigger] group_matches(dat@, prev@, gb, tree_titles(dat@, gb)[y]).contains(i);
                assert(group_matches(dat@, prev@, gb, tree_titles(dat@, gb)[y]).contains(i));
            }
            if claimed_upto(dat@, prev@, gb, x + 1, i) && !claimed_upto(dat@, prev@, gb, x as int, i) {
                let y = choose|y: int| 0 <= y < x + 1 && #[trigger] group_matches(dat@, prev@, gb, tree_titles(dat@, gb)[y]).contains(i);
                assert(y == x);
            }
            if g.contains(i) {
                assert(group_matches(dat@, prev@, gb, tree_titles(dat@, gb)[x as int]).contains(i));
            }
        }
        if matches.len() > 0 {
            *merged = *merged + 1;
        }
        x = x + 1;
    }
    games
}

/// Old entry `i` is taken over by a game of either tree.
pub open spec fn is_claimed(dat: Seq<DatEntry>, prev: Seq<OldCommercial>, i: int) -> bool {
    claimed_upto(dat, prev, true, tree_titles(dat, true).len() as int, i) || claimed_upto(
        dat,
        prev,
        false,
        tree_titles(dat, false).len() as int,
        i,
    )
}

/// An old entry of the Game Boy tree (else of the Color tree).
pub open spec fn in_gb_tree(o: OldCommercial) -> bool {
    o.tree@ == "gb"@
}

/// Among the first `n` old entries, those of a tree that no game takes
/// over.
pub open spec fn leftover_idx(dat: Seq<DatEntry>, prev: Seq<OldCommercial>, gb: bool, n: int) -> Seq<int>
    decreases n,
{
    if n <= 0 {
        Seq::empty()
    } else {
        leftover_idx(dat, prev, gb, n - 1) + if !is_claimed(dat, prev, n - 1) && in_gb_tree(prev[n - 1]) == gb {
            seq![n - 1]
        } else {
            Seq::empty()
        }
    }
}

/// What carrying over the unclaimed among the first `n` old entries files.
pub open spec fn leftovers_notes(dat: Seq<DatEntry>, prev: Seq<OldCommercial>, n: int) -> Seq<(Seq<char>, Seq<char>)>
    decreases n,
{
    if n <= 0 {
        Seq::empty()
    } else {
        leftovers_notes(dat, prev, n - 1) + if !is_claimed(dat, prev, n - 1) {
            leftover_notes(prev[n - 1])
        } else {
            Seq::empty()
        }
    }
}

/// The slugs a tree's leftovers keep.
pub open spec fn reserved(prev: Seq<OldCommercial>, idx: Seq<int>) -> Seq<Seq<char>> {
    idx.map_values(|i: int| prev[i].slug@)
}

/// The old entries as the preservation check reads them.
pub open spec fn claim_views(dat: Seq<DatEntry>, prev: Seq<OldCommercial>) -> Seq<(Seq<char>, Seq<char>, Seq<Seq<char>>, bool)> {
    Seq::new(
        prev.len(),
        |i: int| (prev[i].tree@, prev[i].slug@, views(prev[i].manifest.hashes@), is_claimed(dat, prev, i)),
    )
}

/// The dumps of a tree's first `k` built games.
pub open spec fn built_hashes(dat: Seq<DatEntry>, gb: bool, k: int) -> Seq<Seq<char>>
    decreases k,
{
    if k <= 0 {
        Seq::empty()
    } else {
        built_hashes(dat, gb, k - 1) + ordered_hashes(
            dat,
            ordered(dat, tree_group(dat, gb, tree_titles(dat, gb)[k - 1])),
        )
    }
}

/// The dumps the leftovers at the given indices keep.
pub open spec fn leftover_hashes(prev: Seq<OldCommercial>, idx: Seq<int>) -> Seq<Seq<char>>
    decreases idx.len(),
{
    if idx.len() == 0 {
        Seq::empty()
    } else {
        leftover_hashes(prev, idx.drop_last()) + legacy_hashes(views(prev[idx.last()].manifest.hashes@))
    }
}

/// Every dump a tree's new games hold, game by game.
pub open spec fn tree_hashes(dat: Seq<DatEntry>, prev: Seq<OldCommercial>, gb: bool) -> Seq<Seq<char>> {
    built_hashes(dat, gb, tree_titles(dat, gb).len() as int) + leftover_hashes(
        prev,
        leftover_idx(dat, prev, gb, prev.len() as int),
    )
}

/// A tree's new games: those its titles' entries become, with slugs past
/// the leftovers' and `taken`, then its leftovers under their own slugs.
pub open spec fn is_tree_list<P: DatHardware>(
    games: Seq<(String, Game<P>)>,
    dat: Seq<DatEntry>,
    prev: Seq<OldCommercial>,
    gb: bool,
    taken: Seq<Seq<char>>,
) -> bool {
    let ts = tree_titles(dat, gb);
    let lo = leftover_idx(dat, prev, gb, prev.len() as int);
    let slugs = slugs_assigned(ts, reserved(prev, lo) + taken);
    &&& games.len() == ts.len() + lo.len()
    &&& forall|x: int|
        0 <= x < ts.len() ==> (#[trigger] games[x]).0@ == slugs[x] && is_tree_game(games[x].1, dat, prev, gb, x)
    &&& forall|j: int|
        0 <= j < lo.len() ==> (#[trigger] games[ts.len() + j]).0@ == prev[lo[j]].slug@ && is_leftover_game(
            games[ts.len() + j].1,
            prev[lo[j]],
        )
}

/// What an import files beyond reading the DATs: games reaching several old
/// entries, the leftovers, the suffixed slugs, then the dumps claimed
/// entries dropped.
pub open spec fn import_notes(
    dat: Seq<DatEntry>,
    prev: Seq<OldCommercial>,
    gb_taken: Seq<Seq<char>>,
    gbc_taken: Seq<Seq<char>>,
    dropped: Seq<Seq<char>>,
) -> Seq<(Seq<char>, Seq<char>)> {
    let gb_lo = leftover_idx(dat, prev, true, prev.len() as int);
    let gbc_lo = leftover_idx(dat, prev, false, prev.len() as int);
    tree_notes(dat, prev, true, tree_titles(dat, true).len() as int) + tree_notes(
        dat,
        prev,
        false,
        tree_titles(dat, false).len() as int,
    ) + leftovers_notes(dat, prev, prev.len() as int) + suffixed_lines(
        tree_titles(dat, true),
        reserved(prev, gb_lo) + gb_taken,
        "gb"@,
    ).map_values(|l: Seq<char>| ("Slug collisions suffixed"@, l)) + suffixed_lines(
        tree_titles(dat, false),
        reserved(prev, gbc_lo) + gbc_taken,
        "gbc"@,
    ).map_values(|l: Seq<char>| ("Slug collisions suffixed"@, l)) + dropped.map_values(
        |l: Seq<char>| ("Old hashes absent from current DATs — dropped"@, l),
    )
}

/// How many DAT entries of the Color DAT go to the Game Boy tree.
pub open spec fn moved_count(dat: Seq<DatEntry>, n: int) -> int
    decreases n,
{
    if n <= 0 {
        0
    } else {
        moved_count(dat, n - 1) + if dat[n - 1].from_gbc_dat && dat[n - 1].parsed.gb_compatible {
            1int
        } else {
            0int
        }
    }
}

proof fn lemma_built_release_hashes<P: DatHardware>(
    rs: Seq<Release<P>>,
    dat: Seq<DatEntry>,
    ord: Seq<int>,
    merged: Option<LegacyManifest>,
    j: int,
)
    requires
        0 <= j <= rs.len(),
        rs.len() == ord.len(),
        forall|k: int| 0 <= k < ord.len() ==> is_entry_release(#[trigger] rs[k], dat[ord[k]], merged),
    ensures
        release_hashes(rs.take(j)) == ordered_hashes(dat, ord.take(j)),
    decreases j,
{
    if j > 0 {
        lemma_built_release_hashes(rs, dat, ord, merged, j - 1);
        assert(rs.take(j).drop_last() =~= rs.take(j - 1));
        assert(ord.take(j).drop_last() =~= ord.take(j - 1));
        let r = rs[j - 1];
        let e = dat[ord[j - 1]];
        assert(is_entry_release(r, e, merged));
        assert(artifact_hashes(r.artifacts@) =~= e.dumps@.map_values(|d: DatDump| d.sha1@));
    }
}

proof fn lemma_built_hashes<P: DatHardware>(
    games: Seq<(String, Game<P>)>,
    dat: Seq<DatEntry>,
    prev: Seq<OldCommercial>,
    gb: bool,
    k: int,
)
    requires
        0 <= k <= games.len(),
        k <= tree_titles(dat, gb).len(),
        forall|x: int| 0 <= x < k ==> is_tree_game((#[trigger] games[x]).1, dat, prev, gb, x),
    ensures
        games_hashes(games.take(k)) == built_hashes(dat, gb, k),
    decreases k,
{
    if k > 0 {
        lemma_built_hashes(games, dat, prev, gb, k - 1);
        assert(games.take(k).drop_last() =~= games.take(k - 1));
        let g = games[k - 1].1;
        let t = tree_titles(dat, gb)[k - 1];
        let ord = ordered(dat, tree_group(dat, gb, t));
        assert(is_tree_game(g, dat, prev, gb, k - 1));
        lemma_built_release_hashes(g.releases@, dat, ord, merged_of(prev, group_matches(dat, prev, gb, t)), ord.len() as int);
        assert(g.releases@.take(ord.len() as int) == g.releases@);
        assert(ord.take(ord.len() as int) == ord);
    }
}

proof fn lemma_leftover_hashes<P: DatHardware>(
    games: Seq<(String, Game<P>)>,
    prev: Seq<OldCommercial>,
    idx: Seq<int>,
    j: int,
)
    requires
        0 <= j <= games.len(),
        games.len() == idx.len(),
        forall|k: int| 0 <= k < idx.len() ==> is_leftover_game((#[trigger] games[k]).1, prev[idx[k]]),
    ensures
        games_hashes(games.take(j)) == leftover_hashes(prev, idx.take(j)),
    decreases j,
{
    if j > 0 {
        lemma_leftover_hashes(games, prev, idx, j - 1);
        assert(games.take(j).drop_last() =~= games.take(j - 1));
        assert(idx.take(j).drop_last() =~= idx.take(j - 1));
        let g = games[j - 1].1;
        assert(is_leftover_game(g, prev[idx[j - 1]]));
        let rs = g.releases@;
        assert(rs.drop_last() =~= Seq::<Release<P>>::empty());
        assert(release_hashes(rs) == release_hashes(rs.drop_last()) + artifact_hashes(rs[0].artifacts@));
    }
}

proof fn lemma_games_hashes_append<P: Platform>(a: Seq<(String, Game<P>)>, b: Seq<(String, Game<P>)>)
    ensures
        games_hashes(a + b) == games_hashes(a) + games_hashes(b),
    decreases b.len(),
{
    if b.len() == 0 {
        assert(a + b =~= a);
    } else {
        lemma_games_hashes_append(a, b.drop_last());
        assert((a + b).drop_last() =~= a + b.drop_last());
    }
}

proof fn lemma_merged_count_bound(dat: Seq<DatEntry>, prev: Seq<OldCommercial>, gb: bool, k: int)
    requires
        0 <= k,
    ensures
        0 <= merged_count(dat, prev, gb, k) <= k,
    decreases k,
{
    if k > 0 {
        lemma_merged_count_bound(dat, prev, gb, k - 1);
    }
}

proof fn lemma_moved_bound(dat: Seq<DatEntry>, n: int)
    requires
        0 <= n,
    ensures
        0 <= moved_count(dat, n) <= n,
    decreases n,
{
    if n > 0 {
        lemma_moved_bound(dat, n - 1);
    }
}


/// The tree's new games and the report lines, or the preservation error.
pub type Imported = (Vec<(String, Game<GameBoy>)>, Vec<(String, Game<GameBoyColor>)>, Stats, Vec<(String, String)>);

fn append_hashes<P: Platform>(kept: &mut Vec<String>, games: &Vec<(String, Game<P>)>)
    ensures
        views(final(kept)@) == views(old(kept)@) + games_hashes(games@),
{
    let ghost k0 = views(kept@);
    let mut g: usize = 0;
    assert(views(kept@) =~= k0 + games_hashes(games@.take(0)));
    while g < games.len()
        invariant
            g <= games@.len(),
            views(kept@) == k0 + games_hashes(games@.take(g as int)),
        decreases games@.len() - g,
    {
        let hs = game_hashes(&games[g].1);
        let ghost before = views(kept@);
        let mut q: usize = 0;
        assert(views(kept@) =~= before + views(hs@).take(0));
        while q < hs.len()
            invariant
                q <= hs@.len(),
                views(kept@) == before + views(hs@).take(q as int),
            decreases hs@.len() - q,
        {
            let ghost b = views(kept@);
            kept.push(owned(hs[q].as_str()));
            assert(views(kept@) =~= b.push(hs@[q as int]@));
            assert(views(hs@).take(q + 1) =~= views(hs@).take(q as int).push(hs@[q as int]@));
            q = q + 1;
        }
        assert(views(hs@).take(hs@.len() as int) == views(hs@));
        assert(games@.take(g + 1).drop_last() =~= games@.take(g as int));
        assert(views(kept@) =~= k0 + games_hashes(games@.take(g + 1)));
        g = g + 1;
    }
    assert(games@.take(games@.len() as int) == games@);
}

fn joined_strings(a: Vec<String>, b: &Vec<String>) -> (r: Vec<String>)
    ensures
        views(r@) == views(a@) + views(b@),
{
    let mut out = a;
    let ghost a0 = views(out@);
    let mut k: usize = 0;
    while k < b.len()
        invariant
            k <= b@.len(),
            views(out@) == a0 + views(b@).take(k as int),
        decreases b@.len() - k,
    {
        let ghost before = views(out@);
        out.push(owned(b[k].as_str()));
        assert(views(out@) =~= before.push(b@[k as int]@));
        assert(views(b@).take(k + 1) =~= views(b@).take(k as int).push(b@[k as int]@));
        k = k + 1;
    }
    assert(views(b@).take(b@.len() as int) == views(b@));
    out
}

fn count_moved(dat: &Vec<DatEntry>) -> (n: usize)
    ensures
        n == moved_count(dat@, dat@.len() as int),
{
    let mut moved: usize = 0;
    let mut i: usize = 0;
    while i < dat.len()
        invariant
            i <= dat@.len(),
            moved == moved_count(dat@, i as int),
            moved <= i,
        decreases dat@.len() - i,
    {
        if dat[i].from_gbc_dat && dat[i].parsed.gb_compatible {
            moved = moved + 1;
        }
        i = i + 1;
    }
    moved
}

/// The tree's leftovers, each kept under its own slug.
pub open spec fn is_leftover_list<P: DatHardware>(
    games: Seq<(String, Game<P>)>,
    prev: Seq<OldCommercial>,
    idx: Seq<int>,
) -> bool {
    &&& games.len() == idx.len()
    &&& forall|j: int|
        0 <= j < games.len() ==> (#[trigger] games[j]).0@ == prev[idx[j]].slug@ && is_leftover_game(
            games[j].1,
            prev[idx[j]],
        )
}

/// Carries over the old entries no game took over, tree by tree.
fn carry_leftovers(
    dat: &Vec<DatEntry>,
    prev: &Vec<OldCommercial>,
    claimed: &Vec<bool>,
    notes: &mut Vec<(String, String)>,
) -> (r: (Vec<(String, Game<GameBoy>)>, Vec<(String, Game<GameBoyColor>)>, Vec<String>, Vec<String>))
    requires
        claimed@.len() == prev@.len(),
        forall|j: int| 0 <= j < prev@.len() ==> #[trigger] claimed@[j] == is_claimed(dat@, prev@, j),
    ensures
        is_leftover_list(r.0@, prev@, leftover_idx(dat@, prev@, true, prev@.len() as int)),
        is_leftover_list(r.1@, prev@, leftover_idx(dat@, prev@, false, prev@.len() as int)),
        views(r.2@) == reserved(prev@, leftover_idx(dat@, prev@, true, prev@.len() as int)),
        views(r.3@) == reserved(prev@, leftover_idx(dat@, prev@, false, prev@.len() as int)),
        note_views(final(notes)@) == note_views(old(notes)@) + leftovers_notes(dat@, prev@, prev@.len() as int),
{
    let ghost d = dat@;
    let ghost p = prev@;
    let ghost n1 = note_views(notes@);
    let mut gb_left: Vec<(String, Game<GameBoy>)> = Vec::new();
    let mut gbc_left: Vec<(String, Game<GameBoyColor>)> = Vec::new();
    let mut gb_reserved: Vec<String> = Vec::new();
    let mut gbc_reserved: Vec<String> = Vec::new();
    let mut i: usize = 0;
    assert(note_views(notes@) =~= n1 + leftovers_notes(d, p, 0));
    assert(views(gb_reserved@) =~= reserved(p, leftover_idx(d, p, true, 0)));
    assert(views(gbc_reserved@) =~= reserved(p, leftover_idx(d, p, false, 0)));
    while i < prev.len()
        invariant
            i <= prev@.len(),
            d == dat@,
            p == prev@,
            claimed@.len() == prev@.len(),
            forall|j: int| 0 <= j < prev@.len() ==> #[trigger] claimed@[j] == is_claimed(d, p, j),
            is_leftover_list(gb_left@, p, leftover_idx(d, p, true, i as int)),
            is_leftover_list(gbc_left@, p, leftover_idx(d, p, false, i as int)),
            views(gb_reserved@) == reserved(p, leftover_idx(d, p, true, i as int)),
            views(gbc_reserved@) == reserved(p, leftover_idx(d, p, false, i as int)),
            note_views(notes@) == n1 + leftovers_notes(d, p, i as int),
        decreases prev@.len() - i,
    {
        let o = &prev[i];
        let ghost gl = leftover_idx(d, p, true, i as int);
        let ghost cl = leftover_idx(d, p, false, i as int);
        if !claimed[i] {
            if str_eq(o.tree.as_str(), "gb") {
                let game = leftover_game::<GameBoy>(o, notes);
                let ghost before = views(gb_reserved@);
                gb_reserved.push(owned(o.slug.as_str()));
                assert(views(gb_reserved@) =~= before.push(o.slug@));
                let ghost gb0 = gb_left@;
                gb_left.push((owned(o.slug.as_str()), game));
                assert(leftover_idx(d, p, true, i + 1) == gl.push(i as int));
                assert(leftover_idx(d, p, false, i + 1) =~= cl);
                assert(reserved(p, gl.push(i as int)) =~= reserved(p, gl).push(o.slug@));
                assert forall|j: int| 0 <= j < gb_left@.len() implies (#[trigger] gb_left@[j]).0@ == p[gl.push(
                    i as int,
                )[j]].slug@ && is_leftover_game(gb_left@[j].1, p[gl.push(i as int)[j]]) by {
                    if j < gb0.len() {
                        assert(gb_left@[j] == gb0[j]);
                    }
                }
            } else {
                let game = leftover_game::<GameBoyColor>(o, notes);
                let ghost before = views(gbc_reserved@);
                gbc_reserved.push(owned(o.slug.as_str()));
                assert(views(gbc_reserved@) =~= before.push(o.slug@));
                let ghost gbc0 = gbc_left@;
                gbc_left.push((owned(o.slug.as_str()), game));
                assert(leftover_idx(d, p, false, i + 1) == cl.push(i as int));
                assert(leftover_idx(d, p, true, i + 1) =~= gl);
                assert(reserved(p, cl.push(i as int)) =~= reserved(p, cl).push(o.slug@));
                assert forall|j: int| 0 <= j < gbc_left@.len() implies (#[trigger] gbc_left@[j]).0@ == p[cl.push(
                    i as int,
                )[j]].slug@ && is_leftover_game(gbc_left@[j].1, p[cl.push(i as int)[j]]) by {
                    if j < gbc0.len() {
                        assert(gbc_left@[j] == gbc0[j]);
                    }
                }
            }
            assert(note_views(notes@) =~= n1 + leftovers_notes(d, p, i + 1));
        } else {
            assert(leftover_idx(d, p, true, i + 1) =~= gl);
            assert(leftover_idx(d, p, false, i + 1) =~= cl);
            assert(note_views(notes@) =~= n1 + leftovers_notes(d, p, i + 1));
        }
        i = i + 1;
    }
    (gb_left, gbc_left, gb_reserved, gbc_reserved)
}

/// The old entries as the preservation check reads them.
fn old_entries(dat: &Vec<DatEntry>, prev: &Vec<OldCommercial>, claimed: &Vec<bool>) -> (r: Vec<OldEntry>)
    requires
        claimed@.len() == prev@.len(),
        forall|j: int| 0 <= j < prev@.len() ==> #[trigger] claimed@[j] == is_claimed(dat@, prev@, j),
    ensures
        old_views(r@) == claim_views(dat@, prev@),
{
    let mut olds: Vec<OldEntry> = Vec::new();
    let mut i: usize = 0;
    while i < prev.len()
        invariant
            i <= prev@.len(),
            claimed@.len() == prev@.len(),
            forall|j: int| 0 <= j < prev@.len() ==> #[trigger] claimed@[j] == is_claimed(dat@, prev@, j),
            old_views(olds@) == claim_views(dat@, prev@).take(i as int),
        decreases prev@.len() - i,
    {
        let o = &prev[i];
        let ghost before = old_views(olds@);
        olds.push(OldEntry {
            tree: owned(o.tree.as_str()),
            slug: owned(o.slug.as_str()),
            hashes: copy_strings(&o.manifest.hashes),
            claimed: claimed[i],
        });
        assert(old_views(olds@) =~= before.push(claim_views(dat@, prev@)[i as int]));
        assert(claim_views(dat@, prev@).take(i + 1) =~= claim_views(dat@, prev@).take(i as int).push(
            claim_views(dat@, prev@)[i as int],
        ));
        i = i + 1;
    }
    assert(claim_views(dat@, prev@).take(prev@.len() as int) =~= claim_views(dat@, prev@));
    olds
}

/// A tree's games after slugs are given: the built ones, then the leftovers,
/// hold the tree's dumps.
proof fn lemma_tree_hashes<P: DatHardware>(
    built: Seq<(String, Game<P>)>,
    left: Seq<(String, Game<P>)>,
    dat: Seq<DatEntry>,
    prev: Seq<OldCommercial>,
    gb: bool,
)
    requires
        built.len() == tree_titles(dat, gb).len(),
        forall|x: int| 0 <= x < built.len() ==> is_tree_game((#[trigger] built[x]).1, dat, prev, gb, x),
        is_leftover_list(left, prev, leftover_idx(dat, prev, gb, prev.len() as int)),
    ensures
        games_hashes(built + left) == tree_hashes(dat, prev, gb),
{
    let lo = leftover_idx(dat, prev, gb, prev.len() as int);
    lemma_built_hashes(built, dat, prev, gb, built.len() as int);
    assert(built.take(built.len() as int) == built);
    lemma_leftover_hashes(left, prev, lo, left.len() as int);
    assert(left.take(left.len() as int) == left);
    assert(lo.take(lo.len() as int) == lo);
    lemma_games_hashes_append(built, left);
}

/// Re-imports the commercial Game Boy and Game Boy Color trees from their
/// DAT entries (`dat`, in DAT order, each with a dump), given the old
/// commercial entries (`prev`, tree by tree in directory order) and the
/// directory names each tree already holds in the current schema. The
/// entries of each title become one game; an old entry no game takes over is
/// carried over; every game is given a free slug; and no valid hash of an
/// old entry may be lost, except out loud by an entry a game took over.
/// `parsed` is the count of DAT entries read.
#[verifier::rlimit(50)]
pub fn import_trees(
    dat: &Vec<DatEntry>,
    prev: &Vec<OldCommercial>,
    gb_taken: &Vec<String>,
    gbc_taken: &Vec<String>,
    parsed: usize,
) -> (r: Result<Imported, String>)
    requires
        forall|i: int| 0 <= i < dat@.len() ==> (#[trigger] dat@[i]).dumps@.len() > 0,
        dat@.len() + prev@.len() < usize::MAX,
        gb_taken@.len() + prev@.len() + dat@.len() < u64::MAX,
        gbc_taken@.len() + prev@.len() + dat@.len() < u64::MAX,
    ensures
        r is Ok,
        match r {
            Ok((gb, gbc, stats, notes)) => {
                &&& is_tree_list(gb@, dat@, prev@, true, views(gb_taken@))
                &&& is_tree_list(gbc@, dat@, prev@, false, views(gbc_taken@))
                &&& preservation(
                    claim_views(dat@, prev@),
                    tree_hashes(dat@, prev@, true) + tree_hashes(dat@, prev@, false),
                ) matches Ok(dropped) && note_views(notes@) == import_notes(
                    dat@,
                    prev@,
                    views(gb_taken@),
                    views(gbc_taken@),
                    dropped,
                )
                &&& stats.dat_entries == parsed
                &&& stats.gb_games == gb@.len()
                &&& stats.gbc_games == gbc@.len()
                &&& stats.moved_to_gb == moved_count(dat@, dat@.len() as int)
                &&& stats.merged == merged_count(dat@, prev@, true, tree_titles(dat@, true).len() as int)
                    + merged_count(dat@, prev@, false, tree_titles(dat@, false).len() as int)
                &&& stats.leftovers == leftover_idx(dat@, prev@, true, prev@.len() as int).len() + leftover_idx(
                    dat@,
                    prev@,
                    false,
                    prev@.len() as int,
                ).len()
            },
            Err(e) => preservation(
                claim_views(dat@, prev@),
                tree_hashes(dat@, prev@, true) + tree_hashes(dat@, prev@, false),
            ) == Err::<Seq<Seq<char>>, Seq<char>>(e@),
        },
{
    let ghost d = dat@;
    let ghost p = prev@;
    let mut old_hashes: Vec<Vec<String>> = Vec::new();
    let mut claimed: Vec<bool> = Vec::new();
    let mut i: usize = 0;
    while i < prev.len()
        invariant
            i <= prev@.len(),
            hash_lists(old_hashes@) == old_hash_lists(prev@).take(i as int),
            claimed@.len() == i,
            forall|j: int| 0 <= j < i ==> !(#[trigger] claimed@[j]),
        decreases prev@.len() - i,
    {
        let ghost before = hash_lists(old_hashes@);
        old_hashes.push(copy_strings(&prev[i].manifest.hashes));
        assert(hash_lists(old_hashes@) =~= before.push(views(prev@[i as int].manifest.hashes@)));
        assert(old_hash_lists(prev@).take(i + 1) =~= old_hash_lists(prev@).take(i as int).push(
            views(prev@[i as int].manifest.hashes@),
        ));
        claimed.push(false);
        i = i + 1;
    }
    assert(old_hash_lists(prev@).take(prev@.len() as int) == old_hash_lists(prev@));
    proof {
        lemma_titles_bound(d);
        lemma_merged_count_bound(d, p, true, tree_titles(d, true).len() as int);
        lemma_merged_count_bound(d, p, false, tree_titles(d, false).len() as int);
        lemma_leftover_bound(d, p, true, p.len() as int);
        lemma_leftover_bound(d, p, false, p.len() as int);
        lemma_leftover_split(d, p, p.len() as int);
    }
    let ghost c0 = claimed@;
    let mut merged: usize = 0;
    let mut notes: Vec<(String, String)> = Vec::new();
    let mut gb_games = build_tree::<GameBoy>(dat, true, prev, &old_hashes, &mut claimed, &mut merged, &mut notes);
    let mut gbc_games = build_tree::<GameBoyColor>(dat, false, prev, &old_hashes, &mut claimed, &mut merged, &mut notes);
    assert forall|j: int| 0 <= j < prev@.len() implies #[trigger] claimed@[j] == is_claimed(d, p, j) by {
        assert(!c0[j]);
    }
    let (mut gb_left, mut gbc_left, gb_reserved, gbc_reserved) = carry_leftovers(dat, prev, &claimed, &mut notes);
    let ghost gb_lo = leftover_idx(d, p, true, p.len() as int);
    let ghost gbc_lo = leftover_idx(d, p, false, p.len() as int);
    let leftovers = gb_left.len() + gbc_left.len();
    let mut gb_taken_all = joined_strings(gb_reserved, gb_taken);
    let mut gbc_taken_all = joined_strings(gbc_reserved, gbc_taken);
    let ghost gb0 = gb_games@;
    let ghost gbc0 = gbc_games@;
    assert(game_titles(gb0) =~= tree_titles(d, true)) by {
        assert forall|x: int| 0 <= x < gb0.len() implies game_titles(gb0)[x] == tree_titles(d, true)[x] by {
            assert(is_tree_game(gb0[x].1, d, p, true, x));
        }
    }
    assert(game_titles(gbc0) =~= tree_titles(d, false)) by {
        assert forall|x: int| 0 <= x < gbc0.len() implies game_titles(gbc0)[x] == tree_titles(d, false)[x] by {
            assert(is_tree_game(gbc0[x].1, d, p, false, x));
        }
    }
    assert(gb_taken_all@.len() == views(gb_taken_all@).len());
    assert(gbc_taken_all@.len() == views(gbc_taken_all@).len());
    assert(views(gb_taken@).len() == gb_taken@.len());
    assert(views(gbc_taken@).len() == gbc_taken@.len());
    assert(reserved(p, gb_lo).len() == gb_lo.len());
    assert(reserved(p, gbc_lo).len() == gbc_lo.len());
    assign_slugs(&mut gb_games, &mut gb_taken_all, &mut notes);
    assign_slugs(&mut gbc_games, &mut gbc_taken_all, &mut notes);
    let ghost gb1 = gb_games@;
    let ghost gbc1 = gbc_games@;
    let ghost gbl = gb_left@;
    let ghost gbcl = gbc_left@;
    gb_games.append(&mut gb_left);
    gbc_games.append(&mut gbc_left);
    assert(gb_games@ =~= gb1 + gbl);
    assert(gbc_games@ =~= gbc1 + gbcl);
    let mut kept: Vec<String> = Vec::new();
    append_hashes(&mut kept, &gb_games);
    append_hashes(&mut kept, &gbc_games);
    proof {
        lemma_tree_hashes(gb1, gbl, d, p, true);
        lemma_tree_hashes(gbc1, gbcl, d, p, false);
        assert(views(kept@) =~= tree_hashes(d, p, true) + tree_hashes(d, p, false));
    }
    let olds = old_entries(dat, prev, &claimed);
    proof {
        lemma_import_keeps_old_dumps(d, p);
    }
    let dropped = match check_preserved(&olds, &kept) {
        Ok(lines) => lines,
        Err(e) => {
            return Err(e);
        },
    };
    let ghost n3 = note_views(notes@);
    let mut k: usize = 0;
    while k < dropped.len()
        invariant
            k <= dropped@.len(),
            note_views(notes@) == n3 + views(dropped@).take(k as int).map_values(
                |l: Seq<char>| ("Old hashes absent from current DATs — dropped"@, l),
            ),
        decreases dropped@.len() - k,
    {
        push_note(&mut notes, "Old hashes absent from current DATs — dropped", owned(dropped[k].as_str()));
        assert(views(dropped@).take(k + 1).map_values(|l: Seq<char>| ("Old hashes absent from current DATs — dropped"@, l))
            =~= views(dropped@).take(k as int).map_values(
            |l: Seq<char>| ("Old hashes absent from current DATs — dropped"@, l),
        ).push(("Old hashes absent from current DATs — dropped"@, dropped@[k as int]@)));
        k = k + 1;
    }
    assert(views(dropped@).take(dropped@.len() as int) == views(dropped@));
    let stats = Stats {
        dat_entries: parsed,
        gb_games: gb_games.len(),
        gbc_games: gbc_games.len(),
        moved_to_gb: count_moved(dat),
        merged,
        leftovers,
    };
    Ok((gb_games, gbc_games, stats, notes))
}

proof fn lemma_leftover_split(dat: Seq<DatEntry>, prev: Seq<OldCommercial>, n: int)
    requires
        0 <= n,
    ensures
        leftover_idx(dat, prev, true, n).len() + leftover_idx(dat, prev, false, n).len() <= n,
    decreases n,
{
    if n > 0 {
        lemma_leftover_split(dat, prev, n - 1);
    }
}

proof fn lemma_leftover_bound(dat: Seq<DatEntry>, prev: Seq<OldCommercial>, gb: bool, n: int)
    requires
        0 <= n,
    ensures
        leftover_idx(dat, prev, gb, n).len() <= n,
    decreases n,
{
    if n > 0 {
        lemma_leftover_bound(dat, prev, gb, n - 1);
    }
}

proof fn lemma_valid_lowered(h: Seq<char>)
    ensures
        is_sha1_text(crate::strings::lower_seq(h)) == is_sha1_text(h),
{
    let l = crate::strings::lower_seq(h);
    assert forall|i: int| 0 <= i < l.len() implies #[trigger] crate::strings::lower_seq(l)[i] == l[i] by {
        crate::strings::lemma_lower(h[i]);
        crate::strings::lemma_lower(l[i]);
    }
    assert(crate::strings::lower_seq(l) =~= l);
    crate::ids::lemma_sha1_case_blind(h, l);
}

proof fn lemma_legacy_contains(hs: Seq<Seq<char>>, a: int)
    requires
        0 <= a < hs.len(),
        is_sha1_text(hs[a]),
    ensures
        legacy_hashes(hs).contains(crate::strings::lower_seq(hs[a])),
    decreases hs.len(),
{
    if a < hs.len() - 1 {
        lemma_legacy_contains(hs.drop_last(), a);
        let pre = legacy_hashes(hs.drop_last());
        let k = choose|k: int| 0 <= k < pre.len() && pre[k] == crate::strings::lower_seq(hs.drop_last()[a]);
        assert(legacy_hashes(hs)[k] == pre[k]);
    } else {
        let pre = legacy_hashes(hs.drop_last());
        assert(legacy_hashes(hs)[pre.len() as int] == crate::strings::lower_seq(hs.last()));
    }
}

proof fn lemma_leftover_contains(prev: Seq<OldCommercial>, idx: Seq<int>, j: int, x: Seq<char>)
    requires
        0 <= j < idx.len(),
        legacy_hashes(views(prev[idx[j]].manifest.hashes@)).contains(x),
    ensures
        leftover_hashes(prev, idx).contains(x),
    decreases idx.len(),
{
    let pre = leftover_hashes(prev, idx.drop_last());
    let own = legacy_hashes(views(prev[idx.last()].manifest.hashes@));
    if j < idx.len() - 1 {
        assert(idx.drop_last()[j] == idx[j]);
        lemma_leftover_contains(prev, idx.drop_last(), j, x);
        let k = choose|k: int| 0 <= k < pre.len() && pre[k] == x;
        assert(leftover_hashes(prev, idx)[k] == x);
    } else {
        let k = choose|k: int| 0 <= k < own.len() && own[k] == x;
        assert(leftover_hashes(prev, idx)[pre.len() + k] == x);
    }
}

proof fn lemma_unclaimed_listed(dat: Seq<DatEntry>, prev: Seq<OldCommercial>, gb: bool, n: int, i: int)
    requires
        0 <= i < n <= prev.len(),
        !is_claimed(dat, prev, i),
        in_gb_tree(prev[i]) == gb,
    ensures
        exists|j: int| 0 <= j < leftover_idx(dat, prev, gb, n).len() && leftover_idx(dat, prev, gb, n)[j] == i,
    decreases n,
{
    let lo = leftover_idx(dat, prev, gb, n);
    if i < n - 1 {
        lemma_unclaimed_listed(dat, prev, gb, n - 1, i);
        let pre = leftover_idx(dat, prev, gb, n - 1);
        let j = choose|j: int| 0 <= j < pre.len() && pre[j] == i;
        assert(lo[j] == i);
    } else {
        let pre = leftover_idx(dat, prev, gb, n - 1);
        assert(lo[pre.len() as int] == i);
    }
}

/// An old entry no game takes over keeps every valid dump it listed.
proof fn lemma_unclaimed_kept(dat: Seq<DatEntry>, prev: Seq<OldCommercial>, i: int)
    requires
        0 <= i < prev.len(),
        !is_claimed(dat, prev, i),
    ensures
        lost_of(
            views(prev[i].manifest.hashes@),
            tree_hashes(dat, prev, true) + tree_hashes(dat, prev, false),
        ).len() == 0,
{
    let hs = views(prev[i].manifest.hashes@);
    let kept = tree_hashes(dat, prev, true) + tree_hashes(dat, prev, false);
    let gb = in_gb_tree(prev[i]);
    let lo = leftover_idx(dat, prev, gb, prev.len() as int);
    lemma_unclaimed_listed(dat, prev, gb, prev.len() as int, i);
    let j = choose|j: int| 0 <= j < lo.len() && lo[j] == i;
    assert forall|a: int|
        0 <= a < hs.len() && is_sha1_text(#[trigger] crate::strings::lower_seq(hs[a])) implies kept.contains(
        crate::strings::lower_seq(hs[a]),
    ) by {
        lemma_valid_lowered(hs[a]);
        lemma_legacy_contains(hs, a);
        lemma_leftover_contains(prev, lo, j, crate::strings::lower_seq(hs[a]));
        let lh = leftover_hashes(prev, lo);
        let k = choose|k: int| 0 <= k < lh.len() && lh[k] == crate::strings::lower_seq(hs[a]);
        let bh = built_hashes(dat, gb, tree_titles(dat, gb).len() as int);
        assert(tree_hashes(dat, prev, gb)[bh.len() + k] == lh[k]);
        if gb {
            assert(kept[bh.len() + k] == lh[k]);
        } else {
            assert(kept[tree_hashes(dat, prev, true).len() + bh.len() + k] == lh[k]);
        }
    }
    crate::import_nointro::lemma_lost_of_empty(hs, kept);
}

proof fn lemma_preservation_prefix(dat: Seq<DatEntry>, prev: Seq<OldCommercial>, n: int)
    requires
        0 <= n <= prev.len(),
    ensures
        preservation(
            claim_views(dat, prev).take(n),
            tree_hashes(dat, prev, true) + tree_hashes(dat, prev, false),
        ) is Ok,
    decreases n,
{
    let v = claim_views(dat, prev);
    let kept = tree_hashes(dat, prev, true) + tree_hashes(dat, prev, false);
    if n > 0 {
        lemma_preservation_prefix(dat, prev, n - 1);
        assert(v.take(n).drop_last() =~= v.take(n - 1));
        assert(v.take(n).last() == v[n - 1]);
        if !is_claimed(dat, prev, n - 1) {
            lemma_unclaimed_kept(dat, prev, n - 1);
        }
    } else {
        assert(v.take(0) =~= Seq::<(Seq<char>, Seq<char>, Seq<Seq<char>>, bool)>::empty());
    }
}

/// A re-import never fails its own preservation test: an old entry no game takes over is
/// carried over with every valid dump it listed, so only an entry a game
/// took over can lose a dump, and that loss is reported, not refused.
pub proof fn lemma_import_keeps_old_dumps(dat: Seq<DatEntry>, prev: Seq<OldCommercial>)
    ensures
        preservation(claim_views(dat, prev), tree_hashes(dat, prev, true) + tree_hashes(dat, prev, false)) is Ok,
{
    lemma_preservation_prefix(dat, prev, prev.len() as int);
    assert(claim_views(dat, prev).take(prev.len() as int) =~= claim_views(dat, prev));
}

/// A `<game>` of a DAT: its name and its `<rom>`s.
#[derive(Clone, Debug)]
pub struct DatGame {
    pub name: String,
    pub roms: Vec<DatRom>,
}

/// What a No-Intro name says, as `parse_name` reads it.
pub open spec fn is_parsed_name(p: ParsedName, name: Seq<char>) -> bool {
    &&& p.title@ == name_title(name)
    &&& p.regions@ == name_facts(name).regions
    &&& match p.label {
        Some(l) => name_facts(name).labels.len() > 0 && l@ == joined(name_facts(name).labels),
        None => name_facts(name).labels.len() == 0,
    }
    &&& match p.date {
        Some(d) => name_facts(name).date == Some(d@),
        None => name_facts(name).date is None,
    }
    &&& p.kind == name_facts(name).kind
    &&& p.sgb == name_facts(name).sgb
    &&& p.cgb == name_facts(name).cgb
    &&& p.gb_compatible == name_facts(name).gb_compatible
}

pub open spec fn is_bios(g: DatGame) -> bool {
    starts_with(g.name@, "[BIOS]"@)
}

/// What reading a `<game>` files: a BIOS entry is skipped out loud;
/// another files what its name and its `<rom>`s do.
pub open spec fn game_notes(g: DatGame) -> Seq<(Seq<char>, Seq<char>)> {
    if is_bios(g) {
        seq![("BIOS entries skipped"@, debug_str(g.name@))]
    } else {
        name_facts(g.name@).notes + entry_notes(g.name@, g.roms@)
    }
}

pub open spec fn dat_notes(games: Seq<DatGame>, n: int) -> Seq<(Seq<char>, Seq<char>)>
    decreases n,
{
    if n <= 0 {
        Seq::empty()
    } else {
        dat_notes(games, n - 1) + game_notes(games[n - 1])
    }
}

/// A bound on what reading the first `n` games can file.
pub open spec fn games_bound(games: Seq<DatGame>, n: int) -> int
    decreases n,
{
    if n <= 0 {
        0
    } else {
        games_bound(games, n - 1) + name_chunks(games[n - 1].name@).len() + games[n - 1].roms@.len() + 3
    }
}

/// How many of the first `n` games are not BIOS entries.
pub open spec fn counted(games: Seq<DatGame>, n: int) -> int
    decreases n,
{
    if n <= 0 {
        0
    } else {
        counted(games, n - 1) + if is_bios(games[n - 1]) {
            0int
        } else {
            1int
        }
    }
}

/// The first `n` games that become entries: not BIOS entries, and with a
/// usable dump.
pub open spec fn kept_games(games: Seq<DatGame>, n: int) -> Seq<int>
    decreases n,
{
    if n <= 0 {
        Seq::empty()
    } else {
        kept_games(games, n - 1) + if !is_bios(games[n - 1]) && rom_dumps(games[n - 1].roms@).len() > 0 {
            seq![n - 1]
        } else {
            Seq::empty()
        }
    }
}

/// The entry a DAT's game becomes.
pub open spec fn is_dat_entry(e: DatEntry, g: DatGame, from_gbc_dat: bool) -> bool {
    &&& is_parsed_name(e.parsed, g.name@)
    &&& e.dumps@.map_values(|d: DatDump| dump_view(d)) == rom_dumps(g.roms@)
    &&& e.from_gbc_dat == from_gbc_dat
}

proof fn lemma_game_notes_bound(g: DatGame)
    ensures
        game_notes(g).len() <= name_chunks(g.name@).len() + g.roms@.len() + 3,
{
    lemma_notes_bound(g.name@, name_chunks(g.name@), name_chunks(g.name@).len() as int);
    lemma_rom_notes_bound(g.name@, g.roms@);
}

proof fn lemma_dat_notes_bound(games: Seq<DatGame>, n: int)
    requires
        0 <= n <= games.len(),
    ensures
        dat_notes(games, n).len() <= games_bound(games, n),
        0 <= counted(games, n) <= n,
    decreases n,
{
    if n > 0 {
        lemma_dat_notes_bound(games, n - 1);
        lemma_game_notes_bound(games[n - 1]);
    }
}

/// What reading a DAT's games under its header gives, and files: a header
/// naming neither system is refused with the report untouched; otherwise the
/// entries of the kept games, in order, the count of games read, and every
/// note each game's name and dumps file.
pub open spec fn dat_read(
    header: Seq<char>,
    games: Seq<DatGame>,
    r: Result<(Vec<DatEntry>, usize), String>,
    before: Seq<SectionView>,
    after: Seq<SectionView>,
) -> bool {
    match header_system(header) {
        None => r matches Err(e) && e@ == "unrecognized DAT header "@ + debug_str(header) && after == before,
        Some(system) => r matches Ok((es, n)) && {
            let kept = kept_games(games, games.len() as int);
            &&& n == counted(games, games.len() as int)
            &&& es@.len() == kept.len()
            &&& forall|k: int|
                0 <= k < kept.len() ==> is_dat_entry(
                    #[trigger] es@[k],
                    games[kept[k]],
                    system == DatSystem::GameBoyColor,
                )
            &&& after == filed(before, dat_notes(games, games.len() as int))
        },
    }
}

/// Reads a DAT's games (in document order) under its header: its system
/// decides whether the entries come from the Color DAT; a BIOS entry is
/// skipped; every other game is counted, its name read, and its `<rom>`s'
/// dumps kept; a game with no usable dump is dropped. Returns the entries and
/// the count of games read; a header naming neither system is refused.
pub fn dat_entries(header: &str, games: &Vec<DatGame>, report: &mut Report) -> (r: Result<(Vec<DatEntry>, usize), String>)
    requires
        forall|i: int|
            0 <= i < games@.len() && !is_bios(#[trigger] games@[i]) ==> brackets_balanced_so_far(games@[i].name@),
        total_items(old(report)@) + games_bound(games@, games@.len() as int) < usize::MAX,
    ensures
        dat_read(header@, games@, r, old(report)@, final(report)@),
{
    let system = match dat_system(header) {
        Ok(s) => s,
        Err(e) => {
            return Err(e);
        },
    };
    let from_gbc_dat = match system {
        DatSystem::GameBoyColor => true,
        DatSystem::GameBoy => false,
    };
    let ghost g = games@;
    let ghost r0 = report@;
    proof {
        use_type_invariant(&*report);
        lemma_dat_notes_bound(g, g.len() as int);
    }
    let mut entries: Vec<DatEntry> = Vec::new();
    let mut parsed: usize = 0;
    let mut i: usize = 0;
    assert(report@ == filed(r0, dat_notes(g, 0)));
    while i < games.len()
        invariant
            i <= games@.len(),
            g == games@,
            forall|j: int| 0 <= j < g.len() && !is_bios(#[trigger] g[j]) ==> brackets_balanced_so_far(g[j].name@),
            total_items(r0) + games_bound(g, g.len() as int) < usize::MAX,
            distinct_headings(r0),
            from_gbc_dat == (system == DatSystem::GameBoyColor),
            parsed == counted(g, i as int),
            counted(g, i as int) <= i,
            entries@.len() == kept_games(g, i as int).len(),
            forall|k: int|
                0 <= k < entries@.len() ==> is_dat_entry(#[trigger] entries@[k], g[kept_games(g, i as int)[k]], from_gbc_dat),
            report@ == filed(r0, dat_notes(g, i as int)),
        decreases games@.len() - i,
    {
        proof {
            lemma_dat_notes_bound(g, i as int);
            lemma_filed(r0, dat_notes(g, i as int));
            lemma_games_bound_mono(g, i + 1, g.len() as int);
            lemma_dat_notes_bound(g, i + 1);
        }
        let game = &games[i];
        let ghost kg = kept_games(g, i as int);
        let ghost before = entries@;
        if is_bios_entry(game.name.as_str()) {
            let q = debug_quoted(game.name.as_str());
            report.add("BIOS entries skipped", q);
            let ghost note = ("BIOS entries skipped"@, debug_str(game.name@));
            assert(dat_notes(g, i + 1) =~= dat_notes(g, i as int).push(note));
            assert(dat_notes(g, i as int).push(note).drop_last() == dat_notes(g, i as int));
            assert(report@ == filed(r0, dat_notes(g, i + 1)));
            assert(kept_games(g, i + 1) =~= kg);
        } else {
            parsed = parsed + 1;
            let ghost rp = report@;
            let p = parse_name(game.name.as_str(), report);
            let ghost rq = report@;
            proof {
                lemma_filed(rp, name_facts(game.name@).notes);
                lemma_notes_bound(game.name@, name_chunks(game.name@), name_chunks(game.name@).len() as int);
                assert(games_bound(g, i + 1) == games_bound(g, i as int) + name_chunks(game.name@).len()
                    + game.roms@.len() + 3);
            }
            let dumps = entry_dumps(game.name.as_str(), &game.roms, report);
            proof {
                crate::report::lemma_filed_concat(r0, dat_notes(g, i as int), name_facts(game.name@).notes);
                crate::report::lemma_filed_concat(
                    r0,
                    dat_notes(g, i as int) + name_facts(game.name@).notes,
                    entry_notes(game.name@, game.roms@),
                );
                assert(dat_notes(g, i + 1) =~= dat_notes(g, i as int) + name_facts(game.name@).notes + entry_notes(
                    game.name@,
                    game.roms@,
                ));
            }
            if dumps.len() > 0 {
                entries.push(DatEntry { parsed: p, dumps, from_gbc_dat });
                assert(kept_games(g, i + 1) == kg.push(i as int));
                assert forall|k: int| 0 <= k < entries@.len() implies is_dat_entry(
                    #[trigger] entries@[k],
                    g[kept_games(g, i + 1)[k]],
                    from_gbc_dat,
                ) by {
                    if k < before.len() {
                        assert(entries@[k] == before[k]);
                    }
                }
            } else {
                assert(kept_games(g, i + 1) =~= kg);
            }
        }
        i = i + 1;
    }
    Ok((entries, parsed))
}

proof fn lemma_games_bound_mono(games: Seq<DatGame>, a: int, b: int)
    requires
        0 <= a <= b,
    ensures
        games_bound(games, a) <= games_bound(games, b),
    decreases b - a,
{
    if a < b {
        lemma_games_bound_mono(games, a, b - 1);
    }
}

} // verus!
