//! Moving pre-migration homebrew entries to the current schema: where a
//! dump came from becomes game-level download links, Homebrew Hub screenshot
//! file names become image URLs, and the release's region, date and hashes
//! are read into their checked forms, each one that does not read reported.
use vstd::prelude::*;

use crate::game::{Artifact, Game, GameKind, Language, Link, LinkType, Release, ReleaseStatus};
use crate::ids::{ReleaseDate, Sha1, is_release_date_text, is_sha1_text, release_date_error, sha1_error};
use crate::legacy::{LegacyManifest, LegacySource};
use crate::platform::Platform;
use crate::region::Region;
use crate::report::{Report, distinct_headings, filed, lemma_filed, lemma_filed_concat, total_items};
use crate::strings::{
    chars_of, contains_text, debug_quoted, debug_str, find, find_in, lower_seq, owned, push_str, str_eq, views,
};
use crate::text::{parse_region_list, region_list};

verus! {

broadcast use vstd::string::group_string_axioms;

/// Where Homebrew Hub keeps its entries' files.
pub const GBDEV_ENTRIES: &'static str = "https://raw.githubusercontent.com/gbdev/database/master/entries";

/// What a migration counted.
#[derive(Clone, Copy, PartialEq, Eq, Structural, Debug)]
pub struct Stats {
    pub migrated: usize,
}

/// The URL of a file of a Homebrew Hub entry.
pub open spec fn hub_url(hub: Seq<char>, file: Seq<char>) -> Seq<char> {
    GBDEV_ENTRIES@ + "/"@ + hub + "/"@ + file
}

fn hub_url_of(hub: &str, file: &str) -> (r: String)
    ensures
        r@ == hub_url(hub@, file@),
{
    let mut url = owned(GBDEV_ENTRIES);
    push_str(&mut url, "/");
    push_str(&mut url, hub);
    push_str(&mut url, "/");
    push_str(&mut url, file);
    url
}

/// The screenshot a Homebrew Hub entry is covered by: `cover.png` where it
/// has one, else its first.
pub open spec fn cover_file(shots: Seq<Seq<char>>) -> Option<Seq<char>> {
    if shots.contains("cover.png"@) {
        Some("cover.png"@)
    } else if shots.len() > 0 {
        Some(shots[0])
    } else {
        None
    }
}

/// The URLs of a Homebrew Hub entry's screenshots other than `cover.png`.
pub open spec fn hub_screens(hub: Seq<char>, shots: Seq<Seq<char>>) -> Seq<Seq<char>>
    decreases shots.len(),
{
    if shots.len() == 0 {
        Seq::empty()
    } else {
        hub_screens(hub, shots.drop_last()) + if shots.last() == "cover.png"@ {
            Seq::empty()
        } else {
            seq![hub_url(hub, shots.last())]
        }
    }
}

/// The cover and screenshot URLs of a Homebrew Hub entry, from the file
/// names it listed.
pub fn hub_images(hub: &str, shots: &Vec<String>) -> (r: (Vec<String>, Vec<String>))
    ensures
        views(r.0@) == match cover_file(views(shots@)) {
            Some(f) => seq![hub_url(hub@, f)],
            None => Seq::empty(),
        },
        views(r.1@) == hub_screens(hub@, views(shots@)),
{
    let mut covers: Vec<String> = Vec::new();
    if contains_text(shots, "cover.png") {
        covers.push(hub_url_of(hub, "cover.png"));
        assert(views(covers@) =~= seq![hub_url(hub@, "cover.png"@)]);
    } else if shots.len() > 0 {
        covers.push(hub_url_of(hub, shots[0].as_str()));
        assert(views(covers@) =~= seq![hub_url(hub@, views(shots@)[0])]);
    } else {
        assert(views(covers@) =~= Seq::<Seq<char>>::empty());
    }
    let mut screens: Vec<String> = Vec::new();
    let mut i: usize = 0;
    assert(views(shots@).take(0) =~= Seq::<Seq<char>>::empty());
    assert(views(screens@) =~= Seq::<Seq<char>>::empty());
    while i < shots.len()
        invariant
            i <= shots@.len(),
            views(screens@) == hub_screens(hub@, views(shots@).take(i as int)),
        decreases shots@.len() - i,
    {
        let ghost pre = views(shots@).take(i + 1);
        assert(pre.drop_last() =~= views(shots@).take(i as int));
        assert(pre.last() == shots@[i as int]@);
        let ghost before = views(screens@);
        if str_eq(shots[i].as_str(), "cover.png") {
            assert(views(screens@) =~= before + Seq::<Seq<char>>::empty());
        } else {
            screens.push(hub_url_of(hub, shots[i].as_str()));
            assert(views(screens@) =~= before + seq![hub_url(hub@, shots@[i as int]@)]);
        }
        i = i + 1;
    }
    assert(views(shots@).take(shots@.len() as int) == views(shots@));
    (covers, screens)
}

/// A link as its parts: name, URL, kind and languages.
pub open spec fn link_view(l: Link) -> (Seq<char>, Seq<char>, LinkType, Seq<Language>) {
    (l.name@, l.url@, l.link_type, l.languages@)
}

pub open spec fn link_views(ls: Seq<Link>) -> Seq<(Seq<char>, Seq<char>, LinkType, Seq<Language>)> {
    ls.map_values(|l: Link| link_view(l))
}

/// A link to an itch.io page.
pub open spec fn is_itch(url: Seq<char>) -> bool {
    find(url, ".itch.io/"@) is Some
}

/// The links that are not itch.io pages, as they were.
pub open spec fn kept_links(ls: Seq<Link>) -> Seq<(Seq<char>, Seq<char>, LinkType, Seq<Language>)>
    decreases ls.len(),
{
    if ls.len() == 0 {
        Seq::empty()
    } else {
        kept_links(ls.drop_last()) + if is_itch(ls.last().url@) {
            Seq::empty()
        } else {
            seq![link_view(ls.last())]
        }
    }
}

/// The itch.io links, as pages to obtain the game from.
pub open spec fn itch_pages(ls: Seq<Link>) -> Seq<(Seq<char>, Seq<char>, LinkType, Seq<Language>)>
    decreases ls.len(),
{
    if ls.len() == 0 {
        Seq::empty()
    } else {
        itch_pages(ls.drop_last()) + if is_itch(ls.last().url@) {
            seq![("itch.io"@, ls.last().url@, LinkType::DownloadPage, Seq::<Language>::empty())]
        } else {
            Seq::empty()
        }
    }
}

/// Where the dump came from, as links: a direct file URL as a download, an
/// obtain-from page as a download page.
pub open spec fn source_links(source: LegacySource) -> Seq<(Seq<char>, Seq<char>, LinkType, Seq<Language>)> {
    match source {
        LegacySource::HomebrewHub { slug, filename } => seq![
            ("Homebrew Hub ROM"@, hub_url(slug@, filename@), LinkType::Download, Seq::<Language>::empty()),
            ("Homebrew Hub"@, "https://hh.gbdev.io/games/"@ + slug@, LinkType::DownloadPage, Seq::<Language>::empty()),
        ],
        LegacySource::Url(url) => seq![("Download"@, url@, LinkType::Download, Seq::<Language>::empty())],
    }
}

pub(crate) fn copy_link(l: &Link) -> (r: Link)
    ensures
        link_view(r) == link_view(*l),
{
    let mut languages: Vec<Language> = Vec::new();
    let mut i: usize = 0;
    while i < l.languages.len()
        invariant
            i <= l.languages@.len(),
            languages@ == l.languages@.take(i as int),
        decreases l.languages@.len() - i,
    {
        languages.push(l.languages[i]);
        assert(l.languages@.take(i + 1) =~= l.languages@.take(i as int).push(l.languages@[i as int]));
        i = i + 1;
    }
    assert(l.languages@.take(l.languages@.len() as int) == l.languages@);
    Link { name: owned(l.name.as_str()), url: owned(l.url.as_str()), link_type: l.link_type, languages }
}

fn new_link(name: &str, url: String, link_type: LinkType) -> (r: Link)
    ensures
        link_view(r) == (name@, url@, link_type, Seq::<Language>::empty()),
{
    Link { name: owned(name), url, link_type, languages: Vec::new() }
}

fn itch_link(url: &str) -> (b: bool)
    ensures
        b == is_itch(url@),
{
    let u = chars_of(url);
    let pat = chars_of(".itch.io/");
    find_in(&u, &pat, 0).is_some()
}

/// The game-level links of a migrated homebrew entry: its links other than
/// itch.io pages, then where its dump came from, then its itch.io pages as
/// pages to obtain it from.
pub fn homebrew_links(links: &Vec<Link>, source: &LegacySource) -> (r: Vec<Link>)
    ensures
        link_views(r@) == kept_links(links@) + source_links(*source) + itch_pages(links@),
{
    let mut out: Vec<Link> = Vec::new();
    let mut itch: Vec<Link> = Vec::new();
    let mut i: usize = 0;
    assert(links@.take(0) =~= Seq::<Link>::empty());
    assert(link_views(out@) =~= Seq::<(Seq<char>, Seq<char>, LinkType, Seq<Language>)>::empty());
    assert(link_views(itch@) =~= Seq::<(Seq<char>, Seq<char>, LinkType, Seq<Language>)>::empty());
    while i < links.len()
        invariant
            i <= links@.len(),
            link_views(out@) == kept_links(links@.take(i as int)),
            link_views(itch@) == itch_pages(links@.take(i as int)),
        decreases links@.len() - i,
    {
        let ghost pre = links@.take(i + 1);
        assert(pre.drop_last() =~= links@.take(i as int));
        assert(pre.last() == links@[i as int]);
        let l = &links[i];
        let ghost o = link_views(out@);
        let ghost t = link_views(itch@);
        if itch_link(l.url.as_str()) {
            itch.push(new_link("itch.io", owned(l.url.as_str()), LinkType::DownloadPage));
            assert(link_views(itch@) =~= t.push(("itch.io"@, l.url@, LinkType::DownloadPage, Seq::<Language>::empty())));
            assert(link_views(out@) =~= o + Seq::<(Seq<char>, Seq<char>, LinkType, Seq<Language>)>::empty());
        } else {
            out.push(copy_link(l));
            assert(link_views(out@) =~= o.push(link_view(*l)));
            assert(link_views(itch@) =~= t + Seq::<(Seq<char>, Seq<char>, LinkType, Seq<Language>)>::empty());
        }
        i = i + 1;
    }
    assert(links@.take(links@.len() as int) == links@);
    let ghost kept = link_views(out@);
    match source {
        LegacySource::HomebrewHub { slug, filename } => {
            out.push(new_link("Homebrew Hub ROM", hub_url_of(slug.as_str(), filename.as_str()), LinkType::Download));
            let mut page = owned("https://hh.gbdev.io/games/");
            push_str(&mut page, slug.as_str());
            out.push(new_link("Homebrew Hub", page, LinkType::DownloadPage));
        },
        LegacySource::Url(url) => {
            out.push(new_link("Download", owned(url.as_str()), LinkType::Download));
        },
    }
    assert(link_views(out@) =~= kept + source_links(*source));
    let ghost with_source = link_views(out@);
    let mut k: usize = 0;
    while k < itch.len()
        invariant
            k <= itch@.len(),
            link_views(out@) == with_source + link_views(itch@).take(k as int),
        decreases itch@.len() - k,
    {
        let ghost o = link_views(out@);
        out.push(copy_link(&itch[k]));
        assert(link_views(out@) =~= o.push(link_view(itch@[k as int])));
        assert(link_views(itch@).take(k + 1) =~= link_views(itch@).take(k as int).push(link_view(itch@[k as int])));
        k = k + 1;
    }
    assert(link_views(itch@).take(itch@.len() as int) == link_views(itch@));
    out
}

/// `{:?}` of a list of strings: each quoted, comma-separated, in brackets.
pub open spec fn debug_list(ws: Seq<Seq<char>>) -> Seq<char> {
    "["@ + debug_items(ws) + "]"@
}

pub open spec fn debug_items(ws: Seq<Seq<char>>) -> Seq<char>
    decreases ws.len(),
{
    if ws.len() == 0 {
        Seq::empty()
    } else if ws.len() == 1 {
        debug_str(ws[0])
    } else {
        debug_items(ws.drop_last()) + ", "@ + debug_str(ws.last())
    }
}

pub(crate) fn debug_strings(ws: &Vec<String>) -> (r: String)
    ensures
        r@ == debug_list(views(ws@)),
{
    let mut out = owned("[");
    let mut k: usize = 0;
    assert(views(ws@).take(0) =~= Seq::<Seq<char>>::empty());
    while k < ws.len()
        invariant
            k <= ws@.len(),
            out@ == "["@ + debug_items(views(ws@).take(k as int)),
        decreases ws@.len() - k,
    {
        let ghost pre = views(ws@).take(k + 1);
        assert(pre.drop_last() =~= views(ws@).take(k as int));
        assert(pre.last() == ws@[k as int]@);
        if k > 0 {
            push_str(&mut out, ", ");
        } else {
            assert(pre =~= seq![ws@[0]@]);
        }
        let q = debug_quoted(ws[k].as_str());
        push_str(&mut out, q.as_str());
        k = k + 1;
    }
    assert(views(ws@).take(ws@.len() as int) == views(ws@));
    push_str(&mut out, "]");
    out
}

/// The regions a legacy region text reads as; none where a word does not.
pub open spec fn legacy_regions(region: Option<Seq<char>>) -> Seq<Region> {
    match region {
        Some(text) => match region_list(text) {
            Ok(rs) => rs,
            Err(_) => Seq::empty(),
        },
        None => Seq::empty(),
    }
}

/// The release date a legacy date text reads as, where it reads.
pub open spec fn legacy_date(date: Option<Seq<char>>) -> Option<Seq<char>> {
    match date {
        Some(d) => if is_release_date_text(d) {
            Some(d)
        } else {
            None
        },
        None => None,
    }
}

/// The hashes that read as SHA-1s, in stored form.
pub open spec fn legacy_hashes(hashes: Seq<Seq<char>>) -> Seq<Seq<char>>
    decreases hashes.len(),
{
    if hashes.len() == 0 {
        Seq::empty()
    } else {
        legacy_hashes(hashes.drop_last()) + if is_sha1_text(hashes.last()) {
            seq![lower_seq(hashes.last())]
        } else {
            Seq::empty()
        }
    }
}

pub open spec fn opt_text(o: Option<String>) -> Option<Seq<char>> {
    match o {
        Some(s) => Some(s@),
        None => None,
    }
}

/// What the report files for an entry at `at` (`dir/slug`): screenshot names
/// that no URL can be made of, an unreadable region text, an unreadable
/// date, and each unreadable hash.
pub open spec fn migration_notes(at: Seq<char>, m: LegacyManifest) -> Seq<(Seq<char>, Seq<char>)> {
    shot_note(at, m) + region_note(at, opt_text(m.region)) + date_note(at, opt_text(m.date)) + hash_notes(
        at,
        views(m.hashes@),
    )
}

pub open spec fn shot_note(at: Seq<char>, m: LegacyManifest) -> Seq<(Seq<char>, Seq<char>)> {
    if m.source matches Some(LegacySource::Url(_)) && m.screenshots@.len() > 0 {
        seq![("Screenshot filenames dropped (no URL derivable)"@, at)]
    } else {
        Seq::empty()
    }
}

pub open spec fn region_note(at: Seq<char>, region: Option<Seq<char>>) -> Seq<(Seq<char>, Seq<char>)> {
    match region {
        Some(text) => match region_list(text) {
            Err(unknown) => seq![("Unmappable region text dropped"@, at + ": "@ + debug_list(unknown))],
            Ok(_) => Seq::empty(),
        },
        None => Seq::empty(),
    }
}

pub open spec fn date_note(at: Seq<char>, date: Option<Seq<char>>) -> Seq<(Seq<char>, Seq<char>)> {
    match date {
        Some(d) => if is_release_date_text(d) {
            Seq::empty()
        } else {
            seq![("Unparseable dates dropped"@, at + ": "@ + release_date_error(d))]
        },
        None => Seq::empty(),
    }
}

pub open spec fn hash_notes(at: Seq<char>, hashes: Seq<Seq<char>>) -> Seq<(Seq<char>, Seq<char>)>
    decreases hashes.len(),
{
    if hashes.len() == 0 {
        Seq::empty()
    } else {
        hash_notes(at, hashes.drop_last()) + if is_sha1_text(hashes.last()) {
            Seq::empty()
        } else {
            seq![("Invalid hashes dropped"@, at + ": "@ + sha1_error(hashes.last()))]
        }
    }
}

proof fn lemma_hash_notes_bound(at: Seq<char>, hashes: Seq<Seq<char>>)
    ensures
        hash_notes(at, hashes).len() <= hashes.len(),
    decreases hashes.len(),
{
    if hashes.len() > 0 {
        lemma_hash_notes_bound(at, hashes.drop_last());
    }
}

pub(crate) fn at_text(at: &str, detail: &str) -> (r: String)
    ensures
        r@ == at@ + ": "@ + detail@,
{
    let mut s = owned(at);
    push_str(&mut s, ": ");
    push_str(&mut s, detail);
    s
}

/// The dumps of the hashes that read, in order; each one that does not is
/// reported.
fn legacy_artifacts(at: &str, hashes: &Vec<String>, report: &mut Report) -> (r: Vec<Artifact>)
    requires
        total_items(old(report)@) + hashes@.len() < usize::MAX,
    ensures
        r@.map_values(|a: Artifact| a.sha1@) == legacy_hashes(views(hashes@)),
        forall|k: int| 0 <= k < r@.len() ==> (#[trigger] r@[k]).label is None && r@[k].defect is None && r@[k].size is None,
        final(report)@ == filed(old(report)@, hash_notes(at@, views(hashes@))),
{
    let ghost r0 = report@;
    proof {
        use_type_invariant(&*report);
    }
    let mut out: Vec<Artifact> = Vec::new();
    let mut i: usize = 0;
    assert(views(hashes@).take(0) =~= Seq::<Seq<char>>::empty());
    assert(out@.map_values(|a: Artifact| a.sha1@) =~= Seq::<Seq<char>>::empty());
    while i < hashes.len()
        invariant
            i <= hashes@.len(),
            distinct_headings(r0),
            total_items(r0) + hashes@.len() < usize::MAX,
            out@.map_values(|a: Artifact| a.sha1@) == legacy_hashes(views(hashes@).take(i as int)),
            forall|k: int| 0 <= k < out@.len() ==> (#[trigger] out@[k]).label is None && out@[k].defect is None && out@[k].size is None,
            report@ == filed(r0, hash_notes(at@, views(hashes@).take(i as int))),
        decreases hashes@.len() - i,
    {
        let ghost pre = views(hashes@).take(i + 1);
        assert(pre.drop_last() =~= views(hashes@).take(i as int));
        assert(pre.last() == hashes@[i as int]@);
        proof {
            lemma_hash_notes_bound(at@, views(hashes@).take(i as int));
            lemma_filed(r0, hash_notes(at@, views(hashes@).take(i as int)));
        }
        let ghost notes = hash_notes(at@, views(hashes@).take(i as int));
        match Sha1::parse(hashes[i].as_str()) {
            Ok(sha1) => {
                let ghost o = out@.map_values(|a: Artifact| a.sha1@);
                out.push(Artifact { sha1, label: None, defect: None, size: None });
                assert(out@.map_values(|a: Artifact| a.sha1@) =~= o.push(lower_seq(hashes@[i as int]@)));
                assert(hash_notes(at@, pre) =~= notes);
            },
            Err(e) => {
                report.add("Invalid hashes dropped", at_text(at, e.as_str()));
                let ghost note = ("Invalid hashes dropped"@, at@ + ": "@ + sha1_error(hashes@[i as int]@));
                assert(notes.push(note).drop_last() == notes);
                assert(hash_notes(at@, pre) =~= notes.push(note));
                assert(out@.map_values(|a: Artifact| a.sha1@) =~= legacy_hashes(pre));
            },
        }
        i = i + 1;
    }
    assert(views(hashes@).take(hashes@.len() as int) == views(hashes@));
    out
}

/// The current-schema game a homebrew entry of the old shape becomes, with
/// `hardware` as its one release's hardware; `None` for a commercial entry,
/// which has no source. `at` names the entry (`dir/slug`) in the report.
pub fn migrated_game<P: Platform>(
    at: &str,
    m: &LegacyManifest,
    hardware: P::ReleaseHardware,
    report: &mut Report,
) -> (r: Option<Game<P>>)
    requires
        total_items(old(report)@) + m.hashes@.len() + 3 < usize::MAX,
    ensures
        r is None <==> m.source is None,
        r is None ==> final(report)@ == old(report)@,
        r matches Some(g) ==> {
            &&& final(report)@ == filed(old(report)@, migration_notes(at@, *m))
            &&& g.title@ == m.title@
            &&& g.kind == GameKind::Game
            &&& opt_text(g.developer) == opt_text(m.developer)
            &&& opt_text(g.description) == opt_text(m.description)
            &&& views(g.tags@) == views(m.tags@)
            &&& link_views(g.links@) == kept_links(m.links@) + source_links(m.source->0) + itch_pages(m.links@)
            &&& views(g.covers@) == match m.source->0 {
                LegacySource::HomebrewHub { slug, .. } => match cover_file(views(m.screenshots@)) {
                    Some(f) => seq![hub_url(slug@, f)],
                    None => Seq::empty(),
                },
                LegacySource::Url(_) => Seq::empty(),
            }
            &&& views(g.screenshots@) == match m.source->0 {
                LegacySource::HomebrewHub { slug, .. } => hub_screens(slug@, views(m.screenshots@)),
                LegacySource::Url(_) => Seq::empty(),
            }
            &&& g.mod_of is None
            &&& g.mods@.len() == 0
            &&& !g.curated
            &&& !g.adult
            &&& g.recommended_by@.len() == 0
            &&& g.releases@.len() == 1
            &&& g.releases@[0].title is None
            &&& g.releases@[0].label is None
            &&& g.releases@[0].regions@ == legacy_regions(opt_text(m.region))
            &&& match g.releases@[0].date {
                Some(d) => legacy_date(opt_text(m.date)) == Some(d@),
                None => legacy_date(opt_text(m.date)) is None,
            }
            &&& opt_text(g.releases@[0].publisher) == opt_text(m.publisher)
            &&& g.releases@[0].status == ReleaseStatus::Released
            &&& g.releases@[0].hardware == hardware
            &&& g.releases@[0].artifacts@.map_values(|a: Artifact| a.sha1@) == legacy_hashes(views(m.hashes@))
            &&& forall|k: int|
                0 <= k < g.releases@[0].artifacts@.len() ==> (#[trigger] g.releases@[0].artifacts@[k]).label is None
                    && g.releases@[0].artifacts@[k].defect is None && g.releases@[0].artifacts@[k].size is None
        },
{
    let source = match &m.source {
        Some(s) => s,
        None => {
            return None;
        },
    };
    let ghost r0 = report@;
    proof {
        use_type_invariant(&*report);
        lemma_hash_notes_bound(at@, views(m.hashes@));
    }
    let ghost shot_notes = shot_note(at@, *m);
    let (covers, screenshots) = match source {
        LegacySource::HomebrewHub { slug, .. } => hub_images(slug.as_str(), &m.screenshots),
        LegacySource::Url(_) => {
            if m.screenshots.len() > 0 {
                report.add("Screenshot filenames dropped (no URL derivable)", owned(at));
                assert(shot_notes == seq![("Screenshot filenames dropped (no URL derivable)"@, at@)]);
                assert(shot_notes.drop_last() =~= Seq::<(Seq<char>, Seq<char>)>::empty());
                assert(filed(r0, shot_notes.drop_last()) == r0);
            } else {
                assert(filed(r0, shot_notes) == report@);
            }
            (Vec::new(), Vec::new())
        },
    };
    assert(filed(r0, shot_notes) == report@);
    proof {
        lemma_filed(r0, shot_notes);
    }
    let ghost region_notes = region_note(at@, opt_text(m.region));
    let ghost r1 = report@;
    let regions: Vec<Region> = match &m.region {
        None => {
            assert(region_notes =~= Seq::<(Seq<char>, Seq<char>)>::empty());
            Vec::new()
        },
        Some(text) => match parse_region_list(text.as_str()) {
            Ok(rs) => {
                assert(region_notes =~= Seq::<(Seq<char>, Seq<char>)>::empty());
                rs
            },
            Err(unknown) => {
                let listed = debug_strings(&unknown);
                report.add("Unmappable region text dropped", at_text(at, listed.as_str()));
                let ghost note = ("Unmappable region text dropped"@, at@ + ": "@ + debug_list(views(unknown@)));
                assert(region_notes == seq![note]);
                assert(region_notes.drop_last() =~= Seq::<(Seq<char>, Seq<char>)>::empty());
                assert(filed(r1, region_notes.drop_last()) == r1);
                Vec::new()
            },
        },
    };
    assert(report@ == filed(r1, region_notes));
    proof {
        lemma_filed(r1, region_notes);
    }
    let ghost date_notes = date_note(at@, opt_text(m.date));
    let ghost r2 = report@;
    let date: Option<ReleaseDate> = match &m.date {
        None => {
            assert(date_notes =~= Seq::<(Seq<char>, Seq<char>)>::empty());
            None
        },
        Some(d) => match ReleaseDate::parse(d.as_str()) {
            Ok(date) => {
                assert(date_notes =~= Seq::<(Seq<char>, Seq<char>)>::empty());
                Some(date)
            },
            Err(e) => {
                report.add("Unparseable dates dropped", at_text(at, e.as_str()));
                let ghost note = ("Unparseable dates dropped"@, at@ + ": "@ + release_date_error(d@));
                assert(date_notes == seq![note]);
                assert(date_notes.drop_last() =~= Seq::<(Seq<char>, Seq<char>)>::empty());
                assert(filed(r2, date_notes.drop_last()) == r2);
                None
            },
        },
    };
    assert(report@ == filed(r2, date_notes));
    proof {
        lemma_filed(r2, date_notes);
    }
    let ghost r3 = report@;
    let artifacts = legacy_artifacts(at, &m.hashes, report);
    proof {
        lemma_filed_concat(r0, shot_notes, region_notes);
        lemma_filed_concat(r0, shot_notes + region_notes, date_notes);
        lemma_filed_concat(r0, shot_notes + region_notes + date_notes, hash_notes(at@, views(m.hashes@)));
        assert(migration_notes(at@, *m) == shot_notes + region_notes + date_notes + hash_notes(at@, views(m.hashes@)));
    }
    let links = homebrew_links(&m.links, source);
    let developer = match &m.developer {
        Some(d) => Some(owned(d.as_str())),
        None => None,
    };
    let description = match &m.description {
        Some(d) => Some(owned(d.as_str())),
        None => None,
    };
    let publisher = match &m.publisher {
        Some(d) => Some(owned(d.as_str())),
        None => None,
    };
    let mut tags: Vec<String> = Vec::new();
    let mut k: usize = 0;
    while k < m.tags.len()
        invariant
            k <= m.tags@.len(),
            views(tags@) == views(m.tags@).take(k as int),
        decreases m.tags@.len() - k,
    {
        let ghost before = views(tags@);
        tags.push(owned(m.tags[k].as_str()));
        assert(views(tags@) =~= before.push(m.tags@[k as int]@));
        assert(views(m.tags@).take(k + 1) =~= views(m.tags@).take(k as int).push(m.tags@[k as int]@));
        k = k + 1;
    }
    assert(views(m.tags@).take(m.tags@.len() as int) == views(m.tags@));
    let release = Release {
        title: None,
        label: None,
        regions,
        date,
        publisher,
        status: ReleaseStatus::Released,
        hardware,
        artifacts,
    };
    let mut releases: Vec<Release<P>> = Vec::new();
    releases.push(release);
    Some(
        Game {
            title: owned(m.title.as_str()),
            kind: GameKind::Game,
            developer,
            description,
            tags,
            links,
            covers,
            screenshots,
            mod_of: None,
            mods: Vec::new(),
            curated: false,
            adult: false,
            recommended_by: Vec::new(),
            releases,
        },
    )
}


} // verus!
