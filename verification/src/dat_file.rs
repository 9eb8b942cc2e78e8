//! Reading a No-Intro DAT file: the header's name and each `<game>` with its
//! `<rom>`s, found in the parsed document, then read as DAT entries.
use vstd::prelude::*;

use crate::import_nointro::{DatRom, brackets_balanced_so_far, chunk_state, name_chunks, text_view};
use crate::nointro_games::{DatEntry, DatGame, dat_entries, dat_read, games_bound, is_bios};
use crate::report::{Report, total_items};
use crate::strings::{chars_of, starts_with, str_eq};
use crate::xml::{XmlItem, XmlItemView, item_view, item_views, parse_xml, xml_document};

verus! {

broadcast use vstd::string::group_string_axioms;

/// The value of the first attribute with this local name.
pub open spec fn attr_of(attrs: Seq<(Seq<char>, Seq<char>)>, key: Seq<char>) -> Option<Seq<char>>
    decreases attrs.len(),
{
    if attrs.len() == 0 {
        None
    } else if attrs[0].0 == key {
        Some(attrs[0].1)
    } else {
        attr_of(attrs.drop_first(), key)
    }
}

/// An element with this tag, under this parent where one is given.
pub open spec fn is_tagged(x: XmlItemView, tag: Seq<char>, parent: Option<int>) -> bool {
    &&& x.2
    &&& x.3 == tag
    &&& match parent {
        Some(p) => x.1 == Some(p),
        None => true,
    }
}

/// The positions, among the first `n` nodes, of the elements with this tag
/// (under this parent, where one is given), in document order.
pub open spec fn tagged_under(items: Seq<XmlItemView>, tag: Seq<char>, parent: Option<int>, n: int) -> Seq<int>
    decreases n,
{
    if n <= 0 {
        Seq::empty()
    } else {
        tagged_under(items, tag, parent, n - 1) + if is_tagged(items[n - 1], tag, parent) {
            seq![n - 1]
        } else {
            Seq::empty()
        }
    }
}

pub open spec fn all_tagged(items: Seq<XmlItemView>, tag: Seq<char>, parent: Option<int>) -> Seq<int> {
    tagged_under(items, tag, parent, items.len() as int)
}

/// The text of the header's `<name>`: the first `<name>` child of the first
/// `<header>` element; empty where there is none.
pub open spec fn dat_header(items: Seq<XmlItemView>) -> Seq<char> {
    let hs = all_tagged(items, "header"@, None);
    if hs.len() == 0 {
        Seq::empty()
    } else {
        let ns = all_tagged(items, "name"@, Some(items[hs[0]].0));
        if ns.len() == 0 {
            Seq::empty()
        } else {
            match items[ns[0]].5 {
                Some(t) => t,
                None => Seq::empty(),
            }
        }
    }
}

/// A `<rom>` element read: its `name`, `sha1` and `size` attributes.
pub open spec fn rom_read(r: DatRom, x: XmlItemView) -> bool {
    &&& text_view(r.name) == attr_of(x.4, "name"@)
    &&& text_view(r.sha1) == attr_of(x.4, "sha1"@)
    &&& text_view(r.size) == attr_of(x.4, "size"@)
}

/// The `<game>` element at position `k` read: its `name` attribute (empty
/// where it has none) and its `<rom>` children in order.
pub open spec fn game_read(g: DatGame, items: Seq<XmlItemView>, k: int) -> bool {
    let roms = all_tagged(items, "rom"@, Some(items[k].0));
    &&& g.name@ == match attr_of(items[k].4, "name"@) {
        Some(n) => n,
        None => Seq::empty(),
    }
    &&& g.roms@.len() == roms.len()
    &&& forall|j: int| 0 <= j < roms.len() ==> rom_read(#[trigger] g.roms@[j], items[roms[j]])
}

/// The document's `<game>` elements, read in document order.
pub open spec fn games_read(gs: Seq<DatGame>, items: Seq<XmlItemView>) -> bool {
    let idx = all_tagged(items, "game"@, None);
    &&& gs.len() == idx.len()
    &&& forall|k: int| 0 <= k < idx.len() ==> game_read(#[trigger] gs[k], items, idx[k])
}

/// A bound, by name lengths, on what reading the first `n` games can file.
pub open spec fn names_bound(gs: Seq<DatGame>, n: int) -> int
    decreases n,
{
    if n <= 0 {
        0
    } else {
        names_bound(gs, n - 1) + gs[n - 1].name@.len() + gs[n - 1].roms@.len() + 3
    }
}

/// The games can be read into this report: every name that gets read has
/// no closing bracket without an open one, and the report can count what
/// reading files.
pub open spec fn dat_fits(gs: Seq<DatGame>, report: Seq<(Seq<char>, Seq<Seq<char>>)>) -> bool {
    &&& forall|i: int| 0 <= i < gs.len() && !is_bios(#[trigger] gs[i]) ==> brackets_balanced_so_far(gs[i].name@)
    &&& total_items(report) + names_bound(gs, gs.len() as int) < usize::MAX
}

proof fn lemma_chunks_bound(s: Seq<char>)
    ensures
        chunk_state(s).3.len() <= s.len(),
    decreases s.len(),
{
    if s.len() > 0 {
        lemma_chunks_bound(s.drop_last());
    }
}

proof fn lemma_games_bound(gs: Seq<DatGame>, n: int)
    requires
        0 <= n <= gs.len(),
    ensures
        games_bound(gs, n) <= names_bound(gs, n),
        0 <= names_bound(gs, n),
    decreases n,
{
    if n > 0 {
        lemma_games_bound(gs, n - 1);
        lemma_chunks_bound(gs[n - 1].name@);
        assert(name_chunks(gs[n - 1].name@) == chunk_state(gs[n - 1].name@).3);
    }
}

/// Whether no closing bracket of a name comes without an open one.
pub fn brackets_balanced(name: &str) -> (b: bool)
    ensures
        b == brackets_balanced_so_far(name@),
{
    let v = chars_of(name);
    let mut depth: usize = 0;
    let mut i: usize = 0;
    while i < v.len()
        invariant
            v@ == name@,
            i <= v@.len(),
            depth <= i,
            depth == chunk_state(v@.take(i as int)).0,
            forall|k: int| 0 <= k < i && #[trigger] v@[k] == ')' ==> chunk_state(v@.take(k)).0 > 0,
        decreases v@.len() - i,
    {
        assert(v@.take(i + 1).drop_last() == v@.take(i as int));
        assert(v@.take(i + 1).last() == v@[i as int]);
        if v[i] == '(' {
            depth = depth + 1;
        } else if v[i] == ')' {
            if depth == 0 {
                assert(v@[i as int] == ')' && chunk_state(v@.take(i as int)).0 == 0);
                return false;
            }
            depth = depth - 1;
        }
        i = i + 1;
    }
    true
}

/// The value of the first attribute with this name.
fn attr_value(attrs: &Vec<(String, String)>, key: &str) -> (r: Option<String>)
    ensures
        text_view(r) == attr_of(attrs@.map_values(|a: (String, String)| (a.0@, a.1@)), key@),
{
    let ghost all = attrs@.map_values(|a: (String, String)| (a.0@, a.1@));
    let mut k: usize = 0;
    assert(all.skip(0) == all);
    while k < attrs.len()
        invariant
            k <= attrs@.len(),
            all == attrs@.map_values(|a: (String, String)| (a.0@, a.1@)),
            attr_of(all, key@) == attr_of(all.skip(k as int), key@),
        decreases attrs@.len() - k,
    {
        assert(all.skip(k as int)[0] == (attrs@[k as int].0@, attrs@[k as int].1@));
        assert(all.skip(k as int).drop_first() == all.skip(k + 1));
        if str_eq(attrs[k].0.as_str(), key) {
            return Some(attrs[k].1.clone());
        }
        k = k + 1;
    }
    assert(all.skip(k as int).len() == 0);
    None
}

pub open spec fn ints(v: Seq<usize>) -> Seq<int> {
    v.map_values(|x: usize| x as int)
}

/// The positions of the elements with this tag (under this parent, where
/// one is given), in document order.
fn positions_tagged(items: &Vec<XmlItem>, tag: &str, parent: Option<usize>) -> (r: Vec<usize>)
    ensures
        ints(r@) == all_tagged(
            item_views(items@),
            tag@,
            match parent {
                Some(p) => Some(p as int),
                None => None,
            },
        ),
        forall|j: int| 0 <= j < r@.len() ==> r@[j] < items@.len(),
{
    let ghost vs = item_views(items@);
    let ghost par = match parent {
        Some(p) => Some(p as int),
        None => None::<int>,
    };
    let mut out: Vec<usize> = Vec::new();
    let mut i: usize = 0;
    assert(ints(out@) =~= tagged_under(vs, tag@, par, 0));
    while i < items.len()
        invariant
            i <= items@.len(),
            vs == item_views(items@),
            par == match parent {
                Some(p) => Some(p as int),
                None => None::<int>,
            },
            ints(out@) == tagged_under(vs, tag@, par, i as int),
            forall|j: int| 0 <= j < out@.len() ==> out@[j] < items@.len(),
        decreases items@.len() - i,
    {
        let it = &items[i];
        assert(vs[i as int] == item_view(items@[i as int]));
        let under = match parent {
            Some(p) => match it.parent {
                Some(q) => q == p,
                None => false,
            },
            None => true,
        };
        let ghost before = out@;
        if it.element && under && str_eq(it.tag.as_str(), tag) {
            out.push(i);
            assert(ints(out@) =~= ints(before).push(i as int));
        }
        i = i + 1;
    }
    out
}

/// The header's name text.
fn header_text(items: &Vec<XmlItem>) -> (h: String)
    ensures
        h@ == dat_header(item_views(items@)),
{
    let ghost vs = item_views(items@);
    let hs = positions_tagged(items, "header", None);
    if hs.len() == 0 {
        return String::new();
    }
    assert(vs[hs@[0] as int] == item_view(items@[hs@[0] as int]));
    let ns = positions_tagged(items, "name", Some(items[hs[0]].id));
    if ns.len() == 0 {
        return String::new();
    }
    assert(vs[ns@[0] as int] == item_view(items@[ns@[0] as int]));
    match &items[ns[0]].text {
        Some(t) => t.clone(),
        None => String::new(),
    }
}

/// The `<game>` element at position `k`, read.
fn game_at(items: &Vec<XmlItem>, k: usize) -> (g: DatGame)
    requires
        k < items@.len(),
    ensures
        game_read(g, item_views(items@), k as int),
{
    let ghost vs = item_views(items@);
    assert(vs[k as int] == item_view(items@[k as int]));
    let name = match attr_value(&items[k].attributes, "name") {
        Some(n) => n,
        None => String::new(),
    };
    let rs = positions_tagged(items, "rom", Some(items[k].id));
    let mut roms: Vec<DatRom> = Vec::new();
    let mut j: usize = 0;
    while j < rs.len()
        invariant
            j <= rs@.len(),
            vs == item_views(items@),
            ints(rs@) == all_tagged(vs, "rom"@, Some(vs[k as int].0)),
            forall|i: int| 0 <= i < rs@.len() ==> rs@[i] < items@.len(),
            roms@.len() == j,
            forall|i: int| 0 <= i < j ==> rom_read(#[trigger] roms@[i], vs[ints(rs@)[i]]),
        decreases rs@.len() - j,
    {
        let x = &items[rs[j]];
        assert(vs[rs@[j as int] as int] == item_view(items@[rs@[j as int] as int]));
        assert(ints(rs@)[j as int] == rs@[j as int] as int);
        let rom = DatRom {
            name: attr_value(&x.attributes, "name"),
            sha1: attr_value(&x.attributes, "sha1"),
            size: attr_value(&x.attributes, "size"),
        };
        roms.push(rom);
        j = j + 1;
    }
    DatGame { name, roms }
}

/// Every `<game>` element, read in document order.
fn games_of(items: &Vec<XmlItem>) -> (gs: Vec<DatGame>)
    ensures
        games_read(gs@, item_views(items@)),
{
    let ghost vs = item_views(items@);
    let idx = positions_tagged(items, "game", None);
    let mut gs: Vec<DatGame> = Vec::new();
    let mut k: usize = 0;
    while k < idx.len()
        invariant
            k <= idx@.len(),
            vs == item_views(items@),
            ints(idx@) == all_tagged(vs, "game"@, None),
            forall|i: int| 0 <= i < idx@.len() ==> idx@[i] < items@.len(),
            gs@.len() == k,
            forall|i: int| 0 <= i < k ==> game_read(#[trigger] gs@[i], vs, ints(idx@)[i]),
        decreases idx@.len() - k,
    {
        let g = game_at(items, idx[k]);
        assert(ints(idx@)[k as int] == idx@[k as int] as int);
        gs.push(g);
        k = k + 1;
    }
    gs
}

/// Whether the games can be read into this report (`dat_fits`).
fn games_fit(gs: &Vec<DatGame>, report: &Report) -> (b: bool)
    ensures
        b == dat_fits(gs@, report@),
{
    let mut total: usize = report.item_count();
    let mut k: usize = 0;
    let mut ok = true;
    while k < gs.len()
        invariant
            k <= gs@.len(),
            total == total_items(report@) + names_bound(gs@, k as int),
            ok == forall|i: int| 0 <= i < k && !is_bios(#[trigger] gs@[i]) ==> brackets_balanced_so_far(gs@[i].name@),
        decreases gs@.len() - k,
    {
        proof {
            lemma_games_bound(gs@, k as int);
        }
        let n = chars_of(gs[k].name.as_str()).len();
        let r = gs[k].roms.len();
        if n > usize::MAX - total || r > usize::MAX - total - n || 3 > usize::MAX - total - n - r {
            proof {
                lemma_names_bound_grows(gs@, k + 1, gs@.len() as int);
            }
            return false;
        }
        total = total + n + r + 3;
        let bios = starts_with_bios(gs[k].name.as_str());
        if !bios && !brackets_balanced(gs[k].name.as_str()) {
            ok = false;
        }
        assert(is_bios(gs@[k as int]) == bios);
        k = k + 1;
    }
    ok && total < usize::MAX
}

proof fn lemma_names_bound_grows(gs: Seq<DatGame>, a: int, b: int)
    requires
        0 <= a <= b <= gs.len(),
    ensures
        names_bound(gs, a) <= names_bound(gs, b),
    decreases b - a,
{
    if a < b {
        lemma_names_bound_grows(gs, a, b - 1);
    }
}

fn starts_with_bios(name: &str) -> (b: bool)
    ensures
        b == starts_with(name@, "[BIOS]"@),
{
    crate::import_nointro::is_bios_entry(name)
}

/// What reading a parsed DAT's games gives: where they fit, what reading
/// them under the header gives; else nothing, with the report untouched.
pub open spec fn dat_text_read(
    items: Seq<XmlItemView>,
    gs: Seq<DatGame>,
    r: Option<Result<(Vec<DatEntry>, usize), String>>,
    before: Seq<(Seq<char>, Seq<Seq<char>>)>,
    after: Seq<(Seq<char>, Seq<Seq<char>>)>,
) -> bool {
    if dat_fits(gs, before) {
        r matches Some(res) && dat_read(dat_header(items), gs, res, before, after)
    } else {
        r is None && after == before
    }
}

/// What reading a DAT file's text gives: the parser's error, with the report
/// untouched; or, for the document's games as read, what reading them gives.
pub open spec fn dat_text_outcome(
    doc: Result<Seq<XmlItemView>, Seq<char>>,
    r: Option<Result<(Vec<DatEntry>, usize), String>>,
    before: Seq<(Seq<char>, Seq<Seq<char>>)>,
    after: Seq<(Seq<char>, Seq<Seq<char>>)>,
) -> bool {
    match doc {
        Err(e) => r matches Some(Err(m)) && m@ == e && after == before,
        Ok(_) => exists|items: Seq<XmlItemView>, gs: Seq<DatGame>|
            doc == Ok::<Seq<XmlItemView>, Seq<char>>(items) && games_read(gs, items) && #[trigger] dat_text_read(
                items,
                gs,
                r,
                before,
                after,
            ),
    }
}

/// Reads a DAT file's text: the document is parsed, the header's name and
/// every `<game>` with its `<rom>`s are found, and the games are read as DAT
/// entries under that header. `None` where some game the library would read
/// has a name with a closing bracket and no open one (which no DAT names),
/// or the report could not count what reading files.
#[verifier::spinoff_prover]
pub fn dat_from_text(text: &str, report: &mut Report) -> (r: Option<Result<(Vec<DatEntry>, usize), String>>)
    ensures
        dat_text_outcome(xml_document(text@), r, old(report)@, final(report)@),
{
    let items = match parse_xml(text) {
        Ok(items) => items,
        Err(e) => {
            assert(dat_text_outcome(xml_document(text@), Some(Err(e)), old(report)@, report@));
            return Some(Err(e));
        },
    };
    let ghost vs = item_views(items@);
    assert(xml_document(text@) == Ok::<Seq<XmlItemView>, Seq<char>>(vs));
    let header = header_text(&items);
    let games = games_of(&items);
    assert(games_read(games@, vs));
    if !games_fit(&games, report) {
        assert(!dat_fits(games@, old(report)@));
        assert(report@ == old(report)@);
        assert(dat_text_read(vs, games@, None, old(report)@, report@));
        assert(final(report)@ == report@);
        assert(games_read(games@, vs) && dat_text_read(vs, games@, None, old(report)@, final(report)@));
        let ghost gs = games@;
        assert(games_read(gs, vs) && dat_text_read(vs, gs, None, old(report)@, report@));
        assert(dat_text_outcome(xml_document(text@), None, old(report)@, report@));
        return None;
    }
    proof {
        lemma_games_bound(games@, games@.len() as int);
    }
    let r = dat_entries(header.as_str(), &games, report);
    assert(dat_read(dat_header(vs), games@, r, old(report)@, report@));
    assert(dat_text_read(vs, games@, Some(r), old(report)@, report@));
    assert(dat_text_outcome(xml_document(text@), Some(r), old(report)@, report@));
    Some(r)
}

} // verus!
