//! Reading No-Intro DAT entries: a game name splits into its title, its
//! region set and its qualifier tags.
use vstd::prelude::*;

use crate::game::GameKind;
use crate::ids::{ReleaseDate, Sha1, is_release_date_text, is_sha1_text, sha1_error};
use crate::region::Region;
use crate::report::{
    Report, SectionView, added, distinct_headings, filed, lemma_add_counts_one, lemma_filed, note_views, push_note,
    total_items,
};
use crate::strings::{
    decimal, decimal_string, lemma_decimal_injective, lemma_decimal_value,
    chars_of, debug_quoted, debug_str, find, find_in, is_white, owned, push_char, push_str,
    split_on, lemma_split_on_nonempty, starts_with, str_eq, string_from, trim, trimmed, views,
    ascii_lowercase, contains_text, lower_seq, parse_u64, u64_text_value,
};
use crate::text::{parse_region, region_word, slug_form, slugify};
use crate::game::Game;
use crate::platform::Platform;
use crate::report::{added_all, lemma_added_all};

verus! {

broadcast use vstd::string::group_string_axioms;

/// What import counted.
#[derive(Clone, Copy, PartialEq, Eq, Structural, Debug)]
pub struct Stats {
    pub dat_entries: usize,
    pub gb_games: usize,
    pub gbc_games: usize,
    pub moved_to_gb: usize,
    pub merged: usize,
    pub leftovers: usize,
}

/// The system a DAT covers.
#[derive(Clone, Copy, PartialEq, Eq, Structural, Debug)]
pub enum DatSystem {
    GameBoy,
    GameBoyColor,
}

/// What a No-Intro game name states.
#[derive(Clone, Debug)]
pub struct ParsedName {
    pub title: String,
    pub regions: Vec<Region>,
    pub label: Option<String>,
    pub date: Option<ReleaseDate>,
    pub kind: GameKind,
    pub sgb: bool,
    pub cgb: bool,
    pub gb_compatible: bool,
}

/// Reading a name character by character: the bracket depth, the text
/// outside brackets, the open chunk, and the closed top-level chunks.
pub open spec fn chunk_state(s: Seq<char>) -> (int, Seq<char>, Seq<char>, Seq<Seq<char>>)
    decreases s.len(),
{
    if s.len() == 0 {
        (0, Seq::empty(), Seq::empty(), Seq::empty())
    } else {
        let (depth, title, cur, chunks) = chunk_state(s.drop_last());
        let c = s.last();
        if c == '(' {
            if depth + 1 == 1 {
                (depth + 1, title, cur, chunks)
            } else {
                (depth + 1, title, cur.push(c), chunks)
            }
        } else if c == ')' {
            if depth - 1 == 0 {
                (0, title, Seq::empty(), chunks.push(cur))
            } else {
                (depth - 1, title, cur.push(c), chunks)
            }
        } else if depth == 0 {
            (depth, title.push(c), cur, chunks)
        } else {
            (depth, title, cur.push(c), chunks)
        }
    }
}

/// No closing bracket comes without an open one: reading the name never
/// takes the depth below zero.
pub open spec fn brackets_balanced_so_far(s: Seq<char>) -> bool {
    forall|k: int| 0 <= k < s.len() && #[trigger] s[k] == ')' ==> chunk_state(s.take(k)).0 > 0
}

/// The title a name states: the text outside brackets, trimmed.
pub open spec fn name_title(name: Seq<char>) -> Seq<char> {
    trim(chunk_state(name).1)
}

/// The closed top-level bracket chunks of a name, in order.
pub open spec fn name_chunks(name: Seq<char>) -> Seq<Seq<char>> {
    chunk_state(name).3
}

/// What the chunks of a name have stated so far.
pub struct NameFacts {
    pub regions: Seq<Region>,
    pub labels: Seq<Seq<char>>,
    pub date: Option<Seq<char>>,
    pub kind: GameKind,
    pub sgb: bool,
    pub cgb: bool,
    pub gb_compatible: bool,
    /// Report items filed on the way, as (section, item).
    pub notes: Seq<(Seq<char>, Seq<char>)>,
}

/// The comma-separated words of a chunk, each trimmed, empty ones kept.
pub open spec fn chunk_words(c: Seq<char>) -> Seq<Seq<char>> {
    split_on(c, ',').map_values(|w: Seq<char>| trim(w))
}

pub open spec fn all_region_words(ws: Seq<Seq<char>>) -> bool {
    forall|i: int| 0 <= i < ws.len() ==> #[trigger] region_word(ws[i]) is Some
}

/// The regions a word list names, the "Unknown" words dropped.
pub open spec fn region_values(ws: Seq<Seq<char>>) -> Seq<Region>
    decreases ws.len(),
{
    if ws.len() == 0 {
        Seq::empty()
    } else {
        region_values(ws.drop_last()) + match region_word(ws.last()) {
            Some(Some(r)) => seq![r],
            _ => Seq::empty(),
        }
    }
}

/// Tags that label a release without being a region, date or hardware tag.
pub open spec fn label_prefixes() -> Seq<Seq<char>> {
    seq![
        "Rev"@,
        "Beta"@,
        "Proto"@,
        "Demo"@,
        "Sample"@,
        "Kiosk"@,
        "Promo"@,
        "Unl"@,
        "Pirate"@,
        "Alt"@,
        "NP"@,
    ]
}

pub open spec fn is_known_label(c: Seq<char>) -> bool {
    exists|i: int|
        0 <= i < label_prefixes().len() && (c == #[trigger] label_prefixes()[i] || starts_with(
            c,
            label_prefixes()[i] + " "@,
        ))
}

/// What a qualifier chunk states.
pub open spec fn qualifier_step(name: Seq<char>, c: Seq<char>, st: NameFacts) -> NameFacts {
    if c == "SGB Enhanced"@ {
        NameFacts { sgb: true, ..st }
    } else if c == "CGB Enhanced"@ {
        NameFacts { cgb: true, ..st }
    } else if c == "CGB+SGB Enhanced"@ {
        NameFacts { sgb: true, cgb: true, ..st }
    } else if c == "GB Compatible"@ {
        NameFacts { gb_compatible: true, ..st }
    } else if c == "Demo"@ || c == "Sample"@ || c == "Kiosk"@ {
        NameFacts { kind: GameKind::Demo, ..st }
    } else if is_release_date_text(c) {
        NameFacts { date: Some(c), ..st }
    } else if is_known_label(c) {
        let kind = if starts_with(c, "Demo"@) || starts_with(c, "Sample"@) || starts_with(c, "Kiosk"@) {
            GameKind::Demo
        } else {
            st.kind
        };
        NameFacts { kind, labels: st.labels.push(c), ..st }
    } else {
        NameFacts {
            labels: st.labels.push(c),
            notes: st.notes.push(("Unknown name qualifiers"@, debug_str(c) + " in "@ + debug_str(name))),
            ..st
        }
    }
}

/// What the first `k` chunks of a name state. The first chunk is the region
/// set when every one of its words names a region.
pub open spec fn chunks_facts(name: Seq<char>, chunks: Seq<Seq<char>>, k: int) -> NameFacts
    decreases k,
{
    if k <= 0 {
        NameFacts {
            regions: Seq::empty(),
            labels: Seq::empty(),
            date: None,
            kind: GameKind::Game,
            sgb: false,
            cgb: false,
            gb_compatible: false,
            notes: Seq::empty(),
        }
    } else {
        let st = chunks_facts(name, chunks, k - 1);
        let c = chunks[k - 1];
        if k - 1 == 0 && all_region_words(chunk_words(c)) {
            NameFacts { regions: region_values(chunk_words(c)), ..st }
        } else if k - 1 == 0 {
            qualifier_step(
                name,
                c,
                NameFacts { notes: st.notes.push(("Names without a leading region tag"@, debug_str(name))), ..st },
            )
        } else {
            qualifier_step(name, c, st)
        }
    }
}

pub open spec fn name_facts(name: Seq<char>) -> NameFacts {
    chunks_facts(name, name_chunks(name), name_chunks(name).len() as int)
}

/// A chunk that states an enhancement or compatibility.
pub open spec fn is_hardware_chunk(c: Seq<char>) -> bool {
    c == "SGB Enhanced"@ || c == "CGB Enhanced"@ || c == "CGB+SGB Enhanced"@ || c == "GB Compatible"@
}

/// A hardware chunk is no region list, even as a name's first chunk.
proof fn lemma_hardware_chunk_not_regions(c: Seq<char>)
    requires
        is_hardware_chunk(c),
    ensures
        !all_region_words(chunk_words(c)),
{
    reveal_strlit("SGB Enhanced");
    reveal_strlit("CGB Enhanced");
    reveal_strlit("CGB+SGB Enhanced");
    reveal_strlit("GB Compatible");
    reveal_strlit("Japan");
    reveal_strlit("USA");
    reveal_strlit("Europe");
    reveal_strlit("World");
    reveal_strlit("Taiwan");
    reveal_strlit("Germany");
    reveal_strlit("France");
    reveal_strlit("China");
    reveal_strlit("Spain");
    reveal_strlit("Italy");
    reveal_strlit("Australia");
    reveal_strlit("United Kingdom");
    reveal_strlit("Korea");
    reveal_strlit("Hong Kong");
    reveal_strlit("Sweden");
    reveal_strlit("Netherlands");
    reveal_strlit("Canada");
    reveal_strlit("Brazil");
    reveal_strlit("Unknown");
    lemma_split_no_sep(c, c.len() as int);
    assert(c.take(c.len() as int) =~= c);
    assert(split_on(c, ',') =~= seq![c]);
    assert(!crate::strings::is_whitespace(c[0]));
    assert(crate::strings::trim_start(c) == c);
    assert(!crate::strings::is_whitespace(c.last()));
    assert(crate::strings::trim_end(c) == c);
    assert(chunk_words(c) =~= seq![c]);
    assert(region_word(chunk_words(c)[0]) is None);
}

proof fn lemma_split_no_sep(c: Seq<char>, n: int)
    requires
        0 <= n <= c.len(),
        forall|i: int| 0 <= i < c.len() ==> #[trigger] c[i] != ',',
    ensures
        split_on(c.take(n), ',') == seq![c.take(n)],
    decreases n,
{
    if n > 0 {
        lemma_split_no_sep(c, n - 1);
        assert(c.take(n).drop_last() =~= c.take(n - 1));
        assert(c.take(n).last() == c[n - 1]);
        assert(c.take(n - 1).push(c[n - 1]) =~= c.take(n));
        assert(seq![c.take(n - 1)].update(0, c.take(n)) =~= seq![c.take(n)]);
    } else {
        assert(c.take(0) =~= Seq::<char>::empty());
    }
}

proof fn lemma_hardware_facts(name: Seq<char>, chunks: Seq<Seq<char>>, k: int)
    requires
        0 <= k <= chunks.len(),
    ensures
        chunks_facts(name, chunks, k).sgb == exists|j: int|
            0 <= j < k && (#[trigger] chunks[j] == "SGB Enhanced"@ || chunks[j] == "CGB+SGB Enhanced"@),
        chunks_facts(name, chunks, k).cgb == exists|j: int|
            0 <= j < k && (#[trigger] chunks[j] == "CGB Enhanced"@ || chunks[j] == "CGB+SGB Enhanced"@),
        chunks_facts(name, chunks, k).gb_compatible == exists|j: int|
            0 <= j < k && #[trigger] chunks[j] == "GB Compatible"@,
    decreases k,
{
    reveal_strlit("SGB Enhanced");
    reveal_strlit("CGB Enhanced");
    reveal_strlit("CGB+SGB Enhanced");
    reveal_strlit("GB Compatible");
    assert("SGB Enhanced"@[0] == 'S' && "CGB Enhanced"@[0] == 'C');
    if k > 0 {
        lemma_hardware_facts(name, chunks, k - 1);
        let c = chunks[k - 1];
        if is_hardware_chunk(c) {
            lemma_hardware_chunk_not_regions(c);
        }
    }
}

/// What a name says of its hardware is exactly what its chunks state: it is
/// Super Game Boy enhanced when a chunk reads `SGB Enhanced` or
/// `CGB+SGB Enhanced`, Color enhanced when one reads `CGB Enhanced` or
/// `CGB+SGB Enhanced`, and Game Boy compatible when one reads
/// `GB Compatible`; no other chunk sets any of these.
pub proof fn lemma_hardware_chunks(name: Seq<char>)
    ensures
        name_facts(name).sgb == exists|j: int|
            0 <= j < name_chunks(name).len() && (#[trigger] name_chunks(name)[j] == "SGB Enhanced"@
                || name_chunks(name)[j] == "CGB+SGB Enhanced"@),
        name_facts(name).cgb == exists|j: int|
            0 <= j < name_chunks(name).len() && (#[trigger] name_chunks(name)[j] == "CGB Enhanced"@
                || name_chunks(name)[j] == "CGB+SGB Enhanced"@),
        name_facts(name).gb_compatible == exists|j: int|
            0 <= j < name_chunks(name).len() && #[trigger] name_chunks(name)[j] == "GB Compatible"@,
{
    lemma_hardware_facts(name, name_chunks(name), name_chunks(name).len() as int);
}

/// The label parts joined with ", ".
pub open spec fn joined(parts: Seq<Seq<char>>) -> Seq<char>
    decreases parts.len(),
{
    if parts.len() == 0 {
        Seq::empty()
    } else if parts.len() == 1 {
        parts[0]
    } else {
        joined(parts.drop_last()) + ", "@ + parts.last()
    }
}

/// Reads a name's characters into its title and its top-level chunks.
fn split_chunks(name: &str) -> (r: (Vec<char>, Vec<String>))
    requires
        brackets_balanced_so_far(name@),
    ensures
        r.0@ == chunk_state(name@).1,
        views(r.1@) == chunk_state(name@).3,
{
    let chars = chars_of(name);
    let mut title: Vec<char> = Vec::new();
    let mut current: Vec<char> = Vec::new();
    let mut chunks: Vec<String> = Vec::new();
    let mut depth: usize = 0;
    let mut i: usize = 0;
    assert(chars@.take(0) =~= Seq::<char>::empty());
    assert(views(chunks@) =~= Seq::<Seq<char>>::empty());
    while i < chars.len()
        invariant
            chars@ == name@,
            i <= chars@.len(),
            brackets_balanced_so_far(name@),
            chunk_state(chars@.take(i as int)) == (depth as int, title@, current@, views(chunks@)),
            depth <= i,
        decreases chars@.len() - i,
    {
        let c = chars[i];
        assert(chars@.take(i + 1).drop_last() == chars@.take(i as int));
        assert(chars@.take(i + 1).last() == c);
        if c == '(' {
            depth = depth + 1;
            if depth != 1 {
                current.push(c);
            }
        } else if c == ')' {
            assert(chars@[i as int] == ')');
            assert(chunk_state(name@.take(i as int)).0 > 0);
            depth = depth - 1;
            if depth == 0 {
                let ghost before = views(chunks@);
                chunks.push(string_from(current.as_slice()));
                assert(views(chunks@) =~= before.push(current@));
                current = Vec::new();
            } else {
                current.push(c);
            }
        } else if depth == 0 {
            title.push(c);
        } else {
            current.push(c);
        }
        i = i + 1;
    }
    assert(chars@.take(chars@.len() as int) == chars@);
    (title, chunks)
}

/// The comma-separated words of a chunk, each trimmed, empty ones kept.
fn words_of(c: &Vec<char>) -> (ws: Vec<String>)
    ensures
        views(ws@) == chunk_words(c@),
{
    let mut ws: Vec<String> = Vec::new();
    let mut cur: Vec<char> = Vec::new();
    let ghost mut done: Seq<Seq<char>> = Seq::empty();
    let mut i: usize = 0;
    assert(c@.take(0) =~= Seq::<char>::empty());
    while i < c.len()
        invariant
            i <= c@.len(),
            split_on(c@.take(i as int), ',') == done.push(cur@),
            views(ws@) == done.map_values(|w: Seq<char>| trim(w)),
        decreases c@.len() - i,
    {
        let ch = c[i];
        assert(c@.take(i + 1).drop_last() == c@.take(i as int));
        assert(c@.take(i + 1).last() == ch);
        if ch == ',' {
            let w = trimmed(&cur);
            let ghost before = views(ws@);
            ws.push(string_from(w.as_slice()));
            proof {
                let nd = done.push(cur@);
                assert(views(ws@) =~= before.push(trim(cur@)));
                assert(nd.map_values(|w: Seq<char>| trim(w)) =~= done.map_values(|w: Seq<char>| trim(w)).push(
                    trim(cur@),
                ));
                done = nd;
            }
            cur = Vec::new();
            assert(done.push(cur@) == split_on(c@.take(i as int), ',').push(Seq::empty()));
        } else {
            proof {
                lemma_split_on_nonempty(c@.take(i as int), ',');
            }
            let ghost old_cur = cur@;
            cur.push(ch);
            assert(done.push(cur@) == done.push(old_cur).update(done.len() as int, old_cur.push(ch)));
        }
        i = i + 1;
    }
    assert(c@.take(c@.len() as int) == c@);
    let w = trimmed(&cur);
    let ghost before = views(ws@);
    ws.push(string_from(w.as_slice()));
    proof {
        let nd = done.push(cur@);
        assert(views(ws@) =~= before.push(trim(cur@)));
        assert(nd.map_values(|w: Seq<char>| trim(w)) =~= done.map_values(|w: Seq<char>| trim(w)).push(trim(cur@)));
    }
    ws
}

/// The regions of a word list when every word names one (or "Unknown").
fn region_set(ws: &Vec<String>) -> (r: Option<Vec<Region>>)
    ensures
        match r {
            Some(rs) => all_region_words(views(ws@)) && rs@ == region_values(views(ws@)),
            None => !all_region_words(views(ws@)),
        },
{
    let mut rs: Vec<Region> = Vec::new();
    let mut i: usize = 0;
    assert(views(ws@).take(0) =~= Seq::<Seq<char>>::empty());
    while i < ws.len()
        invariant
            i <= ws@.len(),
            forall|k: int| 0 <= k < i ==> #[trigger] region_word(views(ws@)[k]) is Some,
            rs@ == region_values(views(ws@).take(i as int)),
        decreases ws@.len() - i,
    {
        assert(views(ws@).take(i + 1).drop_last() == views(ws@).take(i as int));
        assert(views(ws@).take(i + 1).last() == ws@[i as int]@);
        match parse_region(ws[i].as_str()) {
            None => {
                assert(region_word(views(ws@)[i as int]) is None);
                return None;
            },
            Some(Some(r)) => {
                rs.push(r);
            },
            Some(None) => {},
        }
        i = i + 1;
    }
    assert(views(ws@).take(ws@.len() as int) == views(ws@));
    Some(rs)
}

fn text_is(v: &Vec<char>, s: &str) -> (b: bool)
    ensures
        b == (v@ == s@),
{
    let w = chars_of(s);
    if w.len() != v.len() {
        return false;
    }
    let m = crate::strings::matches_at(v, &w, 0);
    assert(v@.subrange(0, w@.len() as int) == v@);
    m
}

fn begins(v: &Vec<char>, s: &str) -> (b: bool)
    ensures
        b == starts_with(v@, s@),
{
    let w = chars_of(s);
    let r = crate::strings::matches_at(v, &w, 0);
    assert(r ==> v@.take(w@.len() as int) == v@.subrange(0, w@.len() as int));
    r
}

fn known_label(c: &Vec<char>) -> (b: bool)
    ensures
        b == is_known_label(c@),
{
    let mut prefixes: Vec<&str> = Vec::new();
    prefixes.push("Rev");
    prefixes.push("Beta");
    prefixes.push("Proto");
    prefixes.push("Demo");
    prefixes.push("Sample");
    prefixes.push("Kiosk");
    prefixes.push("Promo");
    prefixes.push("Unl");
    prefixes.push("Pirate");
    prefixes.push("Alt");
    prefixes.push("NP");
    assert(prefixes@.map_values(|p: &str| p@) =~= label_prefixes());
    let mut i: usize = 0;
    while i < prefixes.len()
        invariant
            i <= prefixes@.len(),
            prefixes@.map_values(|p: &str| p@) == label_prefixes(),
            forall|k: int|
                0 <= k < i ==> !(c@ == #[trigger] label_prefixes()[k] || starts_with(c@, label_prefixes()[k] + " "@)),
        decreases prefixes@.len() - i,
    {
        let mut spaced = owned(prefixes[i]);
        push_str(&mut spaced, " ");
        assert(label_prefixes()[i as int] == prefixes@[i as int]@);
        if text_is(c, prefixes[i]) || begins(c, spaced.as_str()) {
            return true;
        }
        i = i + 1;
    }
    false
}

/// The label parts joined with ", ".
fn join_labels(parts: &Vec<String>) -> (s: String)
    requires
        parts@.len() > 0,
    ensures
        s@ == joined(views(parts@)),
{
    let mut s = owned(parts[0].as_str());
    let mut i: usize = 1;
    assert(views(parts@).take(1) =~= seq![parts@[0]@]);
    while i < parts.len()
        invariant
            1 <= i <= parts@.len(),
            s@ == joined(views(parts@).take(i as int)),
        decreases parts@.len() - i,
    {
        assert(views(parts@).take(i + 1).drop_last() == views(parts@).take(i as int));
        assert(views(parts@).take(i + 1).last() == parts@[i as int]@);
        push_str(&mut s, ", ");
        push_str(&mut s, parts[i].as_str());
        i = i + 1;
    }
    assert(views(parts@).take(parts@.len() as int) == views(parts@));
    s
}

pub(crate) proof fn lemma_notes_bound(name: Seq<char>, chunks: Seq<Seq<char>>, k: int)
    requires
        0 <= k,
    ensures
        chunks_facts(name, chunks, k).notes.len() <= k + 1,
        chunks_facts(name, chunks, k).labels.len() <= k,
    decreases k,
{
    if k > 0 {
        lemma_notes_bound(name, chunks, k - 1);
    }
}

/// Splits a No-Intro game name into its title, its region set and its
/// qualifier tags, filing a name with no leading region tag and each tag it
/// does not know in the report.
pub fn parse_name(name: &str, report: &mut Report) -> (p: ParsedName)
    requires
        brackets_balanced_so_far(name@),
        total_items(old(report)@) + name_chunks(name@).len() + 1 < usize::MAX,
    ensures
        p.title@ == name_title(name@),
        p.regions@ == name_facts(name@).regions,
        match p.label {
            Some(l) => name_facts(name@).labels.len() > 0 && l@ == joined(name_facts(name@).labels),
            None => name_facts(name@).labels.len() == 0,
        },
        match p.date {
            Some(d) => name_facts(name@).date == Some(d@),
            None => name_facts(name@).date is None,
        },
        p.kind == name_facts(name@).kind,
        p.sgb == name_facts(name@).sgb,
        p.cgb == name_facts(name@).cgb,
        p.gb_compatible == name_facts(name@).gb_compatible,
        final(report)@ == filed(old(report)@, name_facts(name@).notes),
{
    let (title_chars, chunks) = split_chunks(name);
    let title = string_from(trimmed(&title_chars).as_slice());
    let ghost cs = name_chunks(name@);
    let ghost r0 = report@;
    proof {
        use_type_invariant(&*report);
        lemma_notes_bound(name@, cs, cs.len() as int);
    }
    let mut regions: Vec<Region> = Vec::new();
    let mut labels: Vec<String> = Vec::new();
    let mut date: Option<ReleaseDate> = None;
    let mut kind = GameKind::Game;
    let mut sgb = false;
    let mut cgb = false;
    let mut gb_compatible = false;
    let mut i: usize = 0;
    assert(views(labels@) =~= Seq::<Seq<char>>::empty());
    while i < chunks.len()
        invariant
            i <= chunks@.len(),
            views(chunks@) == cs,
            cs == name_chunks(name@),
            ({
                let st = chunks_facts(name@, cs, i as int);
                &&& regions@ == st.regions
                &&& views(labels@) == st.labels
                &&& match date {
                    Some(d) => st.date == Some(d@),
                    None => st.date is None,
                }
                &&& kind == st.kind
                &&& sgb == st.sgb
                &&& cgb == st.cgb
                &&& gb_compatible == st.gb_compatible
                &&& report@ == filed(r0, st.notes)
            }),
            distinct_headings(r0),
            total_items(r0) + cs.len() + 1 < usize::MAX,
        decreases chunks@.len() - i,
    {
        let ghost st = chunks_facts(name@, cs, i as int);
        proof {
            lemma_notes_bound(name@, cs, i as int);
            lemma_filed(r0, st.notes);
        }
        let c = chars_of(chunks[i].as_str());
        assert(c@ == cs[i as int]);
        let mut handled = false;
        if i == 0 {
            let ws = words_of(&c);
            match region_set(&ws) {
                Some(rs) => {
                    regions = rs;
                    handled = true;
                },
                None => {
                    let quoted = debug_quoted(name);
                    let ghost before = report@;
                    report.add("Names without a leading region tag", quoted);
                    proof {
                        let n2 = st.notes.push(("Names without a leading region tag"@, debug_str(name@)));
                        assert(n2.drop_last() == st.notes);
                    }
                },
            }
        }
        if !handled {
            let ghost st1 = if i == 0 {
                NameFacts { notes: st.notes.push(("Names without a leading region tag"@, debug_str(name@))), ..st }
            } else {
                st
            };
            assert(report@ == filed(r0, st1.notes));
            proof {
                lemma_filed(r0, st1.notes);
            }
            if text_is(&c, "SGB Enhanced") {
                sgb = true;
            } else if text_is(&c, "CGB Enhanced") {
                cgb = true;
            } else if text_is(&c, "CGB+SGB Enhanced") {
                sgb = true;
                cgb = true;
            } else if text_is(&c, "GB Compatible") {
                gb_compatible = true;
            } else if text_is(&c, "Demo") || text_is(&c, "Sample") || text_is(&c, "Kiosk") {
                kind = GameKind::Demo;
            } else {
                match ReleaseDate::parse(chunks[i].as_str()) {
                    Ok(d) => {
                        date = Some(d);
                    },
                    Err(_) => {
                        if known_label(&c) {
                            if begins(&c, "Demo") || begins(&c, "Sample") || begins(&c, "Kiosk") {
                                kind = GameKind::Demo;
                            }
                        } else {
                            let mut item = debug_quoted(chunks[i].as_str());
                            push_str(&mut item, " in ");
                            let quoted = debug_quoted(name);
                            push_str(&mut item, quoted.as_str());
                            report.add("Unknown name qualifiers", item);
                            proof {
                                let n2 = st1.notes.push(("Unknown name qualifiers"@, debug_str(c@) + " in "@ + debug_str(name@)));
                                assert(n2.drop_last() == st1.notes);
                            }
                        }
                        let ghost lb = views(labels@);
                        labels.push(owned(chunks[i].as_str()));
                        assert(views(labels@) =~= lb.push(c@));
                    },
                }
            }
        }
        i = i + 1;
    }
    let label = if labels.len() > 0 {
        Some(join_labels(&labels))
    } else {
        None
    };
    ParsedName { title, regions, label, date, kind, sgb, cgb, gb_compatible }
}

/// The system a DAT's header names, if it is one this import reads.
pub open spec fn header_system(header: Seq<char>) -> Option<DatSystem> {
    if find(header, "Game Boy Color"@) is Some {
        Some(DatSystem::GameBoyColor)
    } else if find(header, "Game Boy"@) is Some {
        Some(DatSystem::GameBoy)
    } else {
        None
    }
}

/// The system a DAT's header names; any other header is refused.
pub fn dat_system(header: &str) -> (r: Result<DatSystem, String>)
    ensures
        match header_system(header@) {
            Some(s) => r == Ok::<DatSystem, String>(s),
            None => r matches Err(e) && e@ == "unrecognized DAT header "@ + debug_str(header@),
        },
{
    let h = chars_of(header);
    let color = chars_of("Game Boy Color");
    let plain = chars_of("Game Boy");
    if find_in(&h, &color, 0).is_some() {
        Ok(DatSystem::GameBoyColor)
    } else if find_in(&h, &plain, 0).is_some() {
        Ok(DatSystem::GameBoy)
    } else {
        let mut e = owned("unrecognized DAT header ");
        let q = debug_quoted(header);
        push_str(&mut e, q.as_str());
        Err(e)
    }
}

/// Whether a DAT entry is a BIOS rather than a game.
pub fn is_bios_entry(name: &str) -> (b: bool)
    ensures
        b == starts_with(name@, "[BIOS]"@),
{
    let n = chars_of(name);
    begins(&n, "[BIOS]")
}

/// The tree a DAT entry goes to: a Game Boy Color entry that runs on the
/// original Game Boy belongs in the Game Boy tree.
pub fn destination(system: DatSystem, gb_compatible: bool) -> (d: DatSystem)
    ensures
        d == if system == DatSystem::GameBoyColor && !gb_compatible {
            DatSystem::GameBoyColor
        } else {
            DatSystem::GameBoy
        },
{
    match system {
        DatSystem::GameBoy => DatSystem::GameBoy,
        DatSystem::GameBoyColor => if gb_compatible {
            DatSystem::GameBoy
        } else {
            DatSystem::GameBoyColor
        },
    }
}

/// The `n`th slug tried for a base: the base itself, then `base-2`, `base-3`…
pub open spec fn slug_candidate(base: Seq<char>, n: nat) -> Seq<char> {
    if n <= 1 {
        base
    } else {
        base + "-"@ + decimal(n)
    }
}

/// `n` is the first try whose slug is not taken.
pub open spec fn first_free(base: Seq<char>, taken: Seq<Seq<char>>, n: nat) -> bool {
    &&& n >= 1
    &&& !taken.contains(slug_candidate(base, n))
    &&& forall|m: nat| 1 <= m < n ==> taken.contains(#[trigger] slug_candidate(base, m))
}

/// Which try gives a free slug.
pub open spec fn free_index(base: Seq<char>, taken: Seq<Seq<char>>) -> nat {
    choose|n: nat| first_free(base, taken, n)
}

/// The first slug for a base that is not taken.
pub open spec fn free_slug(base: Seq<char>, taken: Seq<Seq<char>>) -> Seq<char> {
    slug_candidate(base, free_index(base, taken))
}

proof fn lemma_candidate_injective(base: Seq<char>, a: nat, b: nat)
    requires
        a >= 1,
        b >= 1,
        slug_candidate(base, a) == slug_candidate(base, b),
    ensures
        a == b,
{
    reveal_strlit("-");
    lemma_decimal_value(a);
    lemma_decimal_value(b);
    if a >= 2 && b >= 2 {
        let k: int = base.len() as int + 1;
        assert(slug_candidate(base, a).skip(k) =~= decimal(a));
        assert(slug_candidate(base, b).skip(k) =~= decimal(b));
        lemma_decimal_injective(a, b);
    } else if a >= 2 {
        assert(slug_candidate(base, a).len() > base.len());
    } else if b >= 2 {
        assert(slug_candidate(base, b).len() > base.len());
    }
}

/// A base has only as many taken tries as there are taken slugs.
proof fn lemma_tries_fit(base: Seq<char>, taken: Seq<Seq<char>>, n: nat)
    requires
        n >= 1,
        forall|m: nat| 1 <= m <= n ==> taken.contains(#[trigger] slug_candidate(base, m)),
    ensures
        n <= taken.len(),
{
    let x = vstd::set_lib::set_int_range(1, n as int + 1);
    let f = |m: int| slug_candidate(base, m as nat);
    vstd::set_lib::lemma_int_range(1, n as int + 1);
    assert(vstd::relations::injective_on(f, x)) by {
        assert forall|a: int, b: int| x.contains(a) && x.contains(b) && #[trigger] f(a) == #[trigger] f(b) implies a == b by {
            lemma_candidate_injective(base, a as nat, b as nat);
        }
    }
    let y = x.map(f);
    vstd::set_lib::lemma_map_size(x, y, f);
    assert(y.subset_of(taken.to_set())) by {
        assert forall|s: Seq<char>| y.contains(s) implies taken.to_set().contains(s) by {
            let m = choose|m: int| x.contains(m) && f(m) == s;
            assert(taken.contains(slug_candidate(base, m as nat)));
        }
    }
    taken.lemma_cardinality_of_set();
    vstd::set_lib::lemma_len_subset(y, taken.to_set());
}

proof fn lemma_first_free_unique(base: Seq<char>, taken: Seq<Seq<char>>, n: nat)
    requires
        first_free(base, taken, n),
    ensures
        free_index(base, taken) == n,
{
    let k = free_index(base, taken);
    assert(first_free(base, taken, k));
    if k < n {
        assert(taken.contains(slug_candidate(base, k)));
    } else if n < k {
        assert(taken.contains(slug_candidate(base, n)));
    }
}

fn holds_text(v: &Vec<String>, s: &String) -> (b: bool)
    ensures
        b == views(v@).contains(s@),
{
    let mut i: usize = 0;
    while i < v.len()
        invariant
            i <= v@.len(),
            forall|k: int| 0 <= k < i ==> #[trigger] v@[k]@ != s@,
        decreases v@.len() - i,
    {
        if str_eq(v[i].as_str(), s.as_str()) {
            assert(views(v@)[i as int] == s@);
            return true;
        }
        i = i + 1;
    }
    assert(!views(v@).contains(s@)) by {
        if views(v@).contains(s@) {
            let k = choose|k: int| 0 <= k < views(v@).len() && views(v@)[k] == s@;
            assert(v@[k]@ == s@);
        }
    }
    false
}

/// The first slug for a base that is not taken, and which try it was.
pub fn free_slug_for(base: &String, taken: &Vec<String>) -> (r: (String, u64))
    requires
        taken@.len() < u64::MAX,
    ensures
        r.0@ == free_slug(base@, views(taken@)),
        r.1 == free_index(base@, views(taken@)),
{
    let ghost t = views(taken@);
    let mut candidate = base.clone();
    let mut n: u64 = 1;
    proof {
        taken.len();
    }
    let total = taken.len();
    while holds_text(taken, &candidate)
        invariant
            1 <= n <= t.len() + 1,
            t.len() < u64::MAX,
            t == views(taken@),
            total == t.len(),
            candidate@ == slug_candidate(base@, n as nat),
            forall|m: nat| 1 <= m < n ==> t.contains(#[trigger] slug_candidate(base@, m)),
        decreases t.len() + 1 - n,
    {
        proof {
            assert forall|m: nat| 1 <= m <= n implies t.contains(#[trigger] slug_candidate(base@, m)) by {
                if m == n {
                    assert(slug_candidate(base@, m) == candidate@);
                }
            }
            lemma_tries_fit(base@, t, n as nat);
        }
        n = n + 1;
        let mut next = base.clone();
        push_str(&mut next, "-");
        let digits = decimal_string(n);
        push_str(&mut next, digits.as_str());
        candidate = next;
    }
    proof {
        lemma_first_free_unique(base@, t, n as nat);
    }
    (candidate, n)
}

pub open spec fn game_titles<P: Platform>(games: Seq<(String, Game<P>)>) -> Seq<Seq<char>> {
    games.map_values(|g: (String, Game<P>)| g.1.title@)
}

/// The slugs given to each title in turn, each one taken from then on.
pub open spec fn slugs_assigned(titles: Seq<Seq<char>>, taken: Seq<Seq<char>>) -> Seq<Seq<char>>
    decreases titles.len(),
{
    if titles.len() == 0 {
        Seq::empty()
    } else {
        let pre = slugs_assigned(titles.drop_last(), taken);
        pre.push(free_slug(slug_form(titles.last()), taken + pre))
    }
}

/// The report lines for titles whose slug needed a suffix.
pub open spec fn suffixed_lines(titles: Seq<Seq<char>>, taken: Seq<Seq<char>>, dir: Seq<char>) -> Seq<Seq<char>>
    decreases titles.len(),
{
    if titles.len() == 0 {
        Seq::empty()
    } else {
        let pre = slugs_assigned(titles.drop_last(), taken);
        let base = slug_form(titles.last());
        suffixed_lines(titles.drop_last(), taken, dir) + if free_index(base, taken + pre) > 1 {
            seq![dir + "/"@ + free_slug(base, taken + pre) + " for "@ + debug_str(titles.last())]
        } else {
            Seq::empty()
        }
    }
}

proof fn lemma_suffixed_bound(titles: Seq<Seq<char>>, taken: Seq<Seq<char>>, dir: Seq<char>)
    ensures
        suffixed_lines(titles, taken, dir).len() <= titles.len(),
        slugs_assigned(titles, taken).len() == titles.len(),
    decreases titles.len(),
{
    if titles.len() > 0 {
        lemma_suffixed_bound(titles.drop_last(), taken, dir);
    }
}

/// Gives each game the slug of its title, suffixed `-2`, `-3`… past the
/// slugs already taken (the tree's own and the reserved ones) and those given
/// before it; a report line goes to `notes` for each suffixed slug. Every
/// slug given is taken from then on.
pub fn assign_slugs<P: Platform>(
    games: &mut Vec<(String, Game<P>)>,
    taken: &mut Vec<String>,
    notes: &mut Vec<(String, String)>,
)
    requires
        old(taken)@.len() + old(games)@.len() < u64::MAX,
    ensures
        final(games)@.len() == old(games)@.len(),
        forall|k: int| 0 <= k < old(games)@.len() ==> #[trigger] final(games)@[k].1 == old(games)@[k].1,
        forall|k: int|
            0 <= k < old(games)@.len() ==> #[trigger] final(games)@[k].0@ == slugs_assigned(
                game_titles(old(games)@),
                views(old(taken)@),
            )[k],
        views(final(taken)@) == views(old(taken)@) + slugs_assigned(game_titles(old(games)@), views(old(taken)@)),
        note_views(final(notes)@) == note_views(old(notes)@) + suffixed_lines(
            game_titles(old(games)@),
            views(old(taken)@),
            P::spec_dir(),
        ).map_values(|l: Seq<char>| ("Slug collisions suffixed"@, l)),
{
    let ghost g0 = games@;
    let ghost t0 = views(taken@);
    let ghost titles = game_titles(g0);
    let ghost n0 = note_views(notes@);
    proof {
        lemma_suffixed_bound(titles, t0, P::spec_dir());
    }
    let dir = P::dir();
    let mut rest: Vec<(String, Game<P>)> = Vec::new();
    std::mem::swap(&mut rest, games);
    let mut i: usize = 0;
    let n = rest.len();
    assert(titles.take(0) =~= Seq::<Seq<char>>::empty());
    assert(t0 + Seq::<Seq<char>>::empty() == t0);
    while rest.len() > 0
        invariant
            n == g0.len(),
            i + rest@.len() == n,
            rest@ == g0.skip(i as int),
            titles == game_titles(g0),
            dir@ == P::spec_dir(),
            games@.len() == i,
            forall|k: int| 0 <= k < i ==> #[trigger] games@[k].1 == g0[k].1,
            forall|k: int| 0 <= k < i ==> #[trigger] games@[k].0@ == slugs_assigned(titles.take(i as int), t0)[k],
            views(taken@) == t0 + slugs_assigned(titles.take(i as int), t0),
            note_views(notes@) == n0 + suffixed_lines(titles.take(i as int), t0, dir@).map_values(
                |l: Seq<char>| ("Slug collisions suffixed"@, l),
            ),
            t0.len() + n < u64::MAX,
        decreases rest@.len(),
    {
        proof {
            lemma_suffixed_bound(titles.take(i as int), t0, dir@);
            assert(titles.take(i + 1).drop_last() == titles.take(i as int));
            assert(titles.take(i + 1).last() == g0[i as int].1.title@);
        }
        let (_, game) = rest.remove(0);
        assert(game == g0[i as int].1);
        assert(rest@ =~= g0.skip(i + 1));
        let base = slugify(game.title.as_str());
        let ghost pre = slugs_assigned(titles.take(i as int), t0);
        assert(titles.len() == n);
        assert(titles.take(i as int).len() == i);
        assert(pre.len() == i);
        assert(taken@.len() == views(taken@).len());
        let (slug, tries) = free_slug_for(&base, taken);
        if tries > 1 {
            let mut line = owned(dir);
            push_str(&mut line, "/");
            push_str(&mut line, slug.as_str());
            push_str(&mut line, " for ");
            let q = debug_quoted(game.title.as_str());
            push_str(&mut line, q.as_str());
            let ghost lines = suffixed_lines(titles.take(i + 1), t0, dir@);
            assert(lines.drop_last() == suffixed_lines(titles.take(i as int), t0, dir@));
            assert(lines.last() == line@);
            assert(lines =~= suffixed_lines(titles.take(i as int), t0, dir@).push(line@));
            push_note(notes, "Slug collisions suffixed", line);
            assert(lines.map_values(|l: Seq<char>| ("Slug collisions suffixed"@, l)) =~= suffixed_lines(
                titles.take(i as int),
                t0,
                dir@,
            ).map_values(|l: Seq<char>| ("Slug collisions suffixed"@, l)).push(("Slug collisions suffixed"@, line@)));
        } else {
            assert(suffixed_lines(titles.take(i + 1), t0, dir@) =~= suffixed_lines(titles.take(i as int), t0, dir@));
        }
        let ghost tb = views(taken@);
        taken.push(slug.clone());
        assert(views(taken@) =~= tb.push(slug@));
        let ghost gb = games@;
        games.push((slug, game));
        proof {
            let post = slugs_assigned(titles.take(i + 1), t0);
            assert(post == pre.push(slug@));
            assert(views(taken@) =~= t0 + post);
            assert forall|k: int| 0 <= k < i + 1 implies #[trigger] games@[k].0@ == post[k] by {
                if k < i {
                    assert(games@[k] == gb[k]);
                }
            }
            assert forall|k: int| 0 <= k < i + 1 implies #[trigger] games@[k].1 == g0[k].1 by {
                if k < i {
                    assert(games@[k] == gb[k]);
                }
            }
        }
        i = i + 1;
    }
    assert(titles.take(n as int) == titles);
}

proof fn lemma_search_free(base: Seq<char>, taken: Seq<Seq<char>>, n: nat)
    requires
        n >= 1,
        forall|m: nat| 1 <= m < n ==> taken.contains(#[trigger] slug_candidate(base, m)),
    ensures
        first_free(base, taken, free_index(base, taken)),
    decreases taken.len() + 1 - n,
{
    if !taken.contains(slug_candidate(base, n)) {
        assert(first_free(base, taken, n));
    } else {
        assert forall|m: nat| 1 <= m <= n implies taken.contains(#[trigger] slug_candidate(base, m)) by {}
        lemma_tries_fit(base, taken, n);
        lemma_search_free(base, taken, n + 1);
    }
}

/// Some try is always free, so the free slug is not taken.
proof fn lemma_free_slug(base: Seq<char>, taken: Seq<Seq<char>>)
    ensures
        first_free(base, taken, free_index(base, taken)),
        !taken.contains(free_slug(base, taken)),
{
    lemma_search_free(base, taken, 1);
}

/// Slug assignment never collides: the slugs given are all different, and
/// none of them was taken before.
pub proof fn lemma_assigned_slugs_distinct(titles: Seq<Seq<char>>, taken: Seq<Seq<char>>)
    ensures
        forall|i: int, j: int|
            0 <= i < j < titles.len() ==> #[trigger] slugs_assigned(titles, taken)[i]
                != #[trigger] slugs_assigned(titles, taken)[j],
        forall|i: int| 0 <= i < titles.len() ==> !taken.contains(#[trigger] slugs_assigned(titles, taken)[i]),
    decreases titles.len(),
{
    lemma_suffixed_bound(titles, taken, Seq::empty());
    if titles.len() > 0 {
        let pre_titles = titles.drop_last();
        lemma_assigned_slugs_distinct(pre_titles, taken);
        lemma_suffixed_bound(pre_titles, taken, Seq::empty());
        let pre = slugs_assigned(pre_titles, taken);
        let all = slugs_assigned(titles, taken);
        let last = free_slug(slug_form(titles.last()), taken + pre);
        lemma_free_slug(slug_form(titles.last()), taken + pre);
        assert(all == pre.push(last));
        assert forall|i: int, j: int| 0 <= i < j < titles.len() implies #[trigger] all[i] != #[trigger] all[j] by {
            if j == titles.len() - 1 {
                assert((taken + pre)[taken.len() + i] == pre[i]);
                assert((taken + pre).contains(pre[i]));
            } else {
                assert(all[i] == pre[i] && all[j] == pre[j]);
            }
        }
        assert forall|i: int| 0 <= i < titles.len() implies !taken.contains(#[trigger] all[i]) by {
            if i == titles.len() - 1 {
                if taken.contains(last) {
                    let k = choose|k: int| 0 <= k < taken.len() && taken[k] == last;
                    assert((taken + pre)[k] == last);
                }
            } else {
                assert(all[i] == pre[i]);
            }
        }
    }
}

/// The kind a group of entries sharing a title takes: the first entry that is
/// not a plain game decides, else it is a game.
pub open spec fn group_kind_of(kinds: Seq<GameKind>) -> GameKind
    decreases kinds.len(),
{
    if kinds.len() == 0 {
        GameKind::Game
    } else if kinds[0] != GameKind::Game {
        kinds[0]
    } else {
        group_kind_of(kinds.drop_first())
    }
}

/// The kind of the game a group of DAT entries becomes.
pub fn group_kind(kinds: &Vec<GameKind>) -> (k: GameKind)
    ensures
        k == group_kind_of(kinds@),
{
    let mut i: usize = 0;
    assert(kinds@.skip(0) == kinds@);
    while i < kinds.len()
        invariant
            i <= kinds@.len(),
            group_kind_of(kinds@) == group_kind_of(kinds@.skip(i as int)),
        decreases kinds@.len() - i,
    {
        assert(kinds@.skip(i as int).drop_first() =~= kinds@.skip(i + 1));
        if kinds[i] != GameKind::Game {
            return kinds[i];
        }
        i = i + 1;
    }
    GameKind::Game
}

/// Hash `a` of an old entry, lowered, is dump `b` of those found.
pub open spec fn hash_pair(hashes: Seq<Seq<char>>, found: Seq<Seq<char>>, a: int, b: int) -> bool {
    lower_seq(hashes[a]) == found[b]
}

/// An old entry lists, in any case, a hash among the dumps found.
pub open spec fn shares_hash(hashes: Seq<Seq<char>>, found: Seq<Seq<char>>) -> bool {
    exists|a: int, b: int| 0 <= a < hashes.len() && 0 <= b < found.len() && #[trigger] hash_pair(hashes, found, a, b)
}

fn entry_shares(hashes: &Vec<String>, found: &Vec<String>) -> (r: bool)
    ensures
        r == shares_hash(views(hashes@), views(found@)),
{
    let ghost hs = views(hashes@);
    let ghost fs = views(found@);
    let mut a: usize = 0;
    while a < hashes.len()
        invariant
            hs == views(hashes@),
            fs == views(found@),
            a <= hashes@.len(),
            forall|x: int, y: int| 0 <= x < a && 0 <= y < fs.len() ==> !#[trigger] hash_pair(hs, fs, x, y),
        decreases hashes@.len() - a,
    {
        let low = ascii_lowercase(hashes[a].as_str());
        let mut b: usize = 0;
        while b < found.len()
            invariant
                hs == views(hashes@),
                fs == views(found@),
                a < hashes@.len(),
                b <= found@.len(),
                low@ == lower_seq(hs[a as int]),
                forall|x: int, y: int| 0 <= x < a && 0 <= y < fs.len() ==> !#[trigger] hash_pair(hs, fs, x, y),
                forall|y: int| 0 <= y < b ==> !#[trigger] hash_pair(hs, fs, a as int, y),
            decreases found@.len() - b,
        {
            if str_eq(low.as_str(), found[b].as_str()) {
                assert(hash_pair(hs, fs, a as int, b as int));
                return true;
            }
            b = b + 1;
        }
        a = a + 1;
    }
    false
}

/// The indices, ascending, of the first `n` old entries that list one of
/// the dumps' hashes.
pub open spec fn sharers(lists: Seq<Seq<Seq<char>>>, found: Seq<Seq<char>>, n: int) -> Seq<int>
    decreases n,
{
    if n <= 0 {
        Seq::empty()
    } else {
        sharers(lists, found, n - 1) + if shares_hash(lists[n - 1], found) {
            seq![n - 1]
        } else {
            Seq::empty()
        }
    }
}

pub open spec fn hash_lists(v: Seq<Vec<String>>) -> Seq<Seq<Seq<char>>> {
    v.map_values(|h: Vec<String>| views(h@))
}

/// The old entries a group of found dumps claims: the index of each entry
/// that lists one of the dumps' hashes, ascending, each once.
pub fn old_matches(found: &Vec<String>, previous: &Vec<Vec<String>>) -> (r: Vec<usize>)
    ensures
        forall|a: int, b: int| 0 <= a < b < r@.len() ==> r@[a] < r@[b],
        forall|k: int|
            0 <= k < r@.len() ==> r@[k] < previous@.len() && shares_hash(views(previous@[r@[k] as int]@), views(found@)),
        forall|i: int|
            0 <= i < previous@.len() && shares_hash(views(previous@[i]@), views(found@)) ==> r@.contains(i as usize),
        r@.map_values(|i: usize| i as int) == sharers(hash_lists(previous@), views(found@), previous@.len() as int),
{
    let mut r: Vec<usize> = Vec::new();
    assert(r@.map_values(|i: usize| i as int) =~= sharers(hash_lists(previous@), views(found@), 0));
    let mut i: usize = 0;
    while i < previous.len()
        invariant
            i <= previous@.len(),
            forall|a: int, b: int| 0 <= a < b < r@.len() ==> r@[a] < r@[b],
            forall|k: int| 0 <= k < r@.len() ==> r@[k] < i,
            forall|k: int|
                0 <= k < r@.len() ==> shares_hash(views(previous@[r@[k] as int]@), views(found@)),
            forall|j: int|
                0 <= j < i && shares_hash(views(previous@[j]@), views(found@)) ==> r@.contains(j as usize),
            r@.map_values(|i: usize| i as int) == sharers(hash_lists(previous@), views(found@), i as int),
        decreases previous@.len() - i,
    {
        assert(hash_lists(previous@)[i as int] == views(previous@[i as int]@));
        let ghost r0 = r@.map_values(|i: usize| i as int);
        if entry_shares(&previous[i], found) {
            let ghost before = r@;
            r.push(i);
            assert forall|j: int|
                0 <= j < i + 1 && shares_hash(views(previous@[j]@), views(found@)) implies r@.contains(j as usize) by {
                if j < i {
                    let k = choose|k: int| 0 <= k < before.len() && before[k] == j as usize;
                    assert(r@[k] == j as usize);
                } else {
                    assert(r@[before.len() as int] == i);
                }
            }
            assert(r@.map_values(|i: usize| i as int) =~= r0.push(i as int));
        } else {
            assert(sharers(hash_lists(previous@), views(found@), i + 1) =~= r0);
        }
        i = i + 1;
    }
    r
}

/// An entry of the tree being replaced, as the preservation check reads it.
#[derive(Clone, Debug)]
pub struct OldEntry {
    pub tree: String,
    pub slug: String,
    pub hashes: Vec<String>,
    /// Whether a DAT entry took this entry over.
    pub claimed: bool,
}

/// The valid hashes of a list, lowered, that the new trees no longer hold.
pub open spec fn lost_of(hashes: Seq<Seq<char>>, kept: Seq<Seq<char>>) -> Seq<Seq<char>>
    decreases hashes.len(),
{
    if hashes.len() == 0 {
        Seq::empty()
    } else {
        let h = lower_seq(hashes.last());
        lost_of(hashes.drop_last(), kept) + if is_sha1_text(h) && !kept.contains(h) {
            seq![h]
        } else {
            Seq::empty()
        }
    }
}

pub open spec fn dropped_line(tree: Seq<char>, slug: Seq<char>, hash: Seq<char>) -> Seq<char> {
    tree + "/"@ + slug + ": "@ + hash
}

pub open spec fn violation(tree: Seq<char>, slug: Seq<char>, hash: Seq<char>) -> Seq<char> {
    "sha1 preservation violated: "@ + hash + " from "@ + tree + "/"@ + slug + " lost"@
}

/// An old entry as the preservation test reads it: tree, slug, hashes, and whether a
/// DAT entry took it over.
pub open spec fn old_view(e: OldEntry) -> (Seq<char>, Seq<char>, Seq<Seq<char>>, bool) {
    (e.tree@, e.slug@, views(e.hashes@), e.claimed)
}

pub open spec fn old_views(v: Seq<OldEntry>) -> Seq<(Seq<char>, Seq<char>, Seq<Seq<char>>, bool)> {
    v.map_values(|e: OldEntry| old_view(e))
}

/// Every hash the old entries listed must survive into the new trees. A
/// claimed entry may lose hashes the current DATs retired, out loud (one
/// report line each); an unclaimed entry may not.
pub open spec fn preservation(
    previous: Seq<(Seq<char>, Seq<char>, Seq<Seq<char>>, bool)>,
    kept: Seq<Seq<char>>,
) -> Result<Seq<Seq<char>>, Seq<char>>
    decreases previous.len(),
{
    if previous.len() == 0 {
        Ok(Seq::empty())
    } else {
        match preservation(previous.drop_last(), kept) {
            Err(e) => Err(e),
            Ok(lines) => {
                let e = previous.last();
                let lost = lost_of(e.2, kept);
                if lost.len() == 0 {
                    Ok(lines)
                } else if e.3 {
                    Ok(lines + lost.map_values(|h: Seq<char>| dropped_line(e.0, e.1, h)))
                } else {
                    Err(violation(e.0, e.1, lost[0]))
                }
            },
        }
    }
}

fn lost_in(hashes: &Vec<String>, kept: &Vec<String>) -> (r: Vec<String>)
    ensures
        views(r@) == lost_of(views(hashes@), views(kept@)),
{
    let mut r: Vec<String> = Vec::new();
    let mut i: usize = 0;
    assert(views(hashes@).take(0) =~= Seq::<Seq<char>>::empty());
    while i < hashes.len()
        invariant
            i <= hashes@.len(),
            views(r@) == lost_of(views(hashes@).take(i as int), views(kept@)),
        decreases hashes@.len() - i,
    {
        let low = ascii_lowercase(hashes[i].as_str());
        let valid = Sha1::parse(low.as_str()).is_ok();
        let ghost pre = views(hashes@).take(i + 1);
        assert(pre.drop_last() =~= views(hashes@).take(i as int));
        assert(pre.last() == hashes@[i as int]@);
        if valid && !contains_text(kept, low.as_str()) {
            let ghost before = views(r@);
            r.push(low);
            assert(views(r@) =~= before + seq![lower_seq(hashes@[i as int]@)]);
        } else {
            assert(views(r@) =~= views(r@) + Seq::<Seq<char>>::empty());
        }
        i = i + 1;
    }
    assert(views(hashes@).take(hashes@.len() as int) == views(hashes@));
    r
}

/// Checks that the new trees keep every valid hash of the old entries: `Ok`
/// with a report line for each hash a claimed entry dropped, or the error
/// for the first hash an unclaimed entry would lose.
pub fn check_preserved(previous: &Vec<OldEntry>, kept: &Vec<String>) -> (r: Result<Vec<String>, String>)
    ensures
        match preservation(old_views(previous@), views(kept@)) {
            Ok(lines) => r matches Ok(v) && views(v@) == lines,
            Err(e) => r matches Err(m) && m@ == e,
        },
{
    let mut lines: Vec<String> = Vec::new();
    let mut i: usize = 0;
    let ghost ov = old_views(previous@);
    assert(ov.take(0) =~= Seq::<(Seq<char>, Seq<char>, Seq<Seq<char>>, bool)>::empty());
    assert(views(lines@) =~= Seq::<Seq<char>>::empty());
    while i < previous.len()
        invariant
            i <= previous@.len(),
            ov == old_views(previous@),
            preservation(ov.take(i as int), views(kept@)) == Ok::<Seq<Seq<char>>, Seq<char>>(views(lines@)),
        decreases previous@.len() - i,
    {
        let e = &previous[i];
        let ghost pre = ov.take(i + 1);
        assert(pre.drop_last() =~= ov.take(i as int));
        assert(pre.last() == old_view(previous@[i as int]));
        let lost = lost_in(&e.hashes, kept);
        if lost.len() > 0 {
            if e.claimed {
                let ghost before = views(lines@);
                let ghost added_lines = views(lost@).map_values(|h: Seq<char>| dropped_line(e.tree@, e.slug@, h));
                let mut k: usize = 0;
                while k < lost.len()
                    invariant
                        k <= lost@.len(),
                        added_lines == views(lost@).map_values(|h: Seq<char>| dropped_line(e.tree@, e.slug@, h)),
                        views(lines@) == before + added_lines.take(k as int),
                    decreases lost@.len() - k,
                {
                    let mut line = e.tree.clone();
                    push_str(&mut line, "/");
                    push_str(&mut line, e.slug.as_str());
                    push_str(&mut line, ": ");
                    push_str(&mut line, lost[k].as_str());
                    let ghost ob = views(lines@);
                    lines.push(line);
                    assert(views(lines@) =~= ob.push(dropped_line(e.tree@, e.slug@, lost@[k as int]@)));
                    assert(added_lines.take(k + 1) =~= added_lines.take(k as int).push(added_lines[k as int]));
                    k = k + 1;
                }
                assert(added_lines.take(lost@.len() as int) == added_lines);
            } else {
                let mut m = owned("sha1 preservation violated: ");
                push_str(&mut m, lost[0].as_str());
                push_str(&mut m, " from ");
                push_str(&mut m, e.tree.as_str());
                push_str(&mut m, "/");
                push_str(&mut m, e.slug.as_str());
                push_str(&mut m, " lost");
                proof {
                    lemma_preservation_fails(ov, views(kept@), i as int);
                }
                return Err(m);
            }
        }
        i = i + 1;
    }
    assert(ov.take(ov.len() as int) == ov);
    Ok(lines)
}

/// Once a prefix of the old entries fails the preservation test, the whole list fails
/// with the same error.
proof fn lemma_preservation_fails(previous: Seq<(Seq<char>, Seq<char>, Seq<Seq<char>>, bool)>, kept: Seq<Seq<char>>, i: int)
    requires
        0 <= i < previous.len(),
        preservation(previous.take(i + 1), kept) is Err,
    ensures
        preservation(previous, kept) == preservation(previous.take(i + 1), kept),
    decreases previous.len() - i,
{
    if i + 1 < previous.len() {
        let pre = previous.take(i + 2);
        assert(pre.drop_last() =~= previous.take(i + 1));
        assert(preservation(pre, kept) == preservation(previous.take(i + 1), kept));
        lemma_preservation_fails(previous, kept, i + 1);
    } else {
        assert(previous.take(i + 1) =~= previous);
    }
}

pub(crate) proof fn lemma_lost_of_empty(hashes: Seq<Seq<char>>, kept: Seq<Seq<char>>)
    ensures
        lost_of(hashes, kept).len() == 0 <==> forall|a: int|
            0 <= a < hashes.len() && is_sha1_text(#[trigger] lower_seq(hashes[a])) ==> kept.contains(
                lower_seq(hashes[a]),
            ),
    decreases hashes.len(),
{
    if hashes.len() > 0 {
        let pre = hashes.drop_last();
        lemma_lost_of_empty(pre, kept);
        assert forall|a: int| 0 <= a < pre.len() implies #[trigger] lower_seq(pre[a]) == lower_seq(hashes[a]) by {
            assert(pre[a] == hashes[a]);
        }
        let h = lower_seq(hashes.last());
        if lost_of(hashes, kept).len() == 0 {
            assert(lost_of(pre, kept).len() == 0);
            assert(!(is_sha1_text(h) && !kept.contains(h)));
            assert forall|a: int|
                0 <= a < hashes.len() && is_sha1_text(#[trigger] lower_seq(hashes[a])) implies kept.contains(
                lower_seq(hashes[a]),
            ) by {
                if a < pre.len() {
                    assert(lower_seq(pre[a]) == lower_seq(hashes[a]));
                }
            }
        } else {
            if lost_of(pre, kept).len() == 0 {
                assert(is_sha1_text(h) && !kept.contains(h));
                assert(lower_seq(hashes[hashes.len() - 1]) == h);
            } else {
                let a = choose|a: int|
                    0 <= a < pre.len() && is_sha1_text(#[trigger] lower_seq(pre[a])) && !kept.contains(
                        lower_seq(pre[a]),
                    );
                assert(lower_seq(pre[a]) == lower_seq(hashes[a]));
            }
        }
    }
}

/// Preservation holds only where no unclaimed old entry loses a hash: every
/// valid hash such an entry listed, lowered, is among the hashes kept.
pub proof fn lemma_preserved_hashes_survive(
    previous: Seq<(Seq<char>, Seq<char>, Seq<Seq<char>>, bool)>,
    kept: Seq<Seq<char>>,
    i: int,
    a: int,
)
    requires
        preservation(previous, kept) is Ok,
        0 <= i < previous.len(),
        !previous[i].3,
        0 <= a < previous[i].2.len(),
        is_sha1_text(lower_seq(previous[i].2[a])),
    ensures
        kept.contains(lower_seq(previous[i].2[a])),
    decreases previous.len(),
{
    let pre = previous.drop_last();
    if i < previous.len() - 1 {
        assert(preservation(pre, kept) is Ok);
        assert(pre[i] == previous[i]);
        lemma_preserved_hashes_survive(pre, kept, i, a);
    } else {
        let hs = previous[i].2;
        lemma_lost_of_empty(hs, kept);
        assert(lost_of(hs, kept).len() == 0);
    }
}

/// A `<rom>` of a DAT entry, as its attributes read.
#[derive(Clone, Debug)]
pub struct DatRom {
    pub name: Option<String>,
    pub sha1: Option<String>,
    pub size: Option<String>,
}

/// A dump a DAT entry lists: its hash, its size where the DAT gives a
/// readable one, and its file name.
#[derive(Clone, Debug)]
pub struct DatDump {
    pub sha1: Sha1,
    pub size: Option<u64>,
    pub filename: Option<String>,
}

pub open spec fn text_view(o: Option<String>) -> Option<Seq<char>> {
    match o {
        Some(s) => Some(s@),
        None => None,
    }
}

pub open spec fn dump_view(d: DatDump) -> (Seq<char>, Option<int>, Option<Seq<char>>) {
    (
        d.sha1@,
        match d.size {
            Some(n) => Some(n as int),
            None => None,
        },
        text_view(d.filename),
    )
}

/// The dump a `<rom>` gives: one with a valid sha1, lowered; its size when
/// the attribute reads as a number.
pub open spec fn rom_dump(rom: DatRom) -> Option<(Seq<char>, Option<int>, Option<Seq<char>>)> {
    match rom.sha1 {
        Some(h) => if is_sha1_text(h@) {
            Some(
                (
                    lower_seq(h@),
                    match rom.size {
                        Some(t) => u64_text_value(t@),
                        None => None,
                    },
                    text_view(rom.name),
                ),
            )
        } else {
            None
        },
        None => None,
    }
}

pub open spec fn rom_dumps(roms: Seq<DatRom>) -> Seq<(Seq<char>, Option<int>, Option<Seq<char>>)>
    decreases roms.len(),
{
    if roms.len() == 0 {
        Seq::empty()
    } else {
        rom_dumps(roms.drop_last()) + match rom_dump(roms.last()) {
            Some(d) => seq![d],
            None => Seq::empty(),
        }
    }
}

/// What the report files for the `<rom>`s of an entry named `name`.
pub open spec fn rom_notes(name: Seq<char>, roms: Seq<DatRom>) -> Seq<(Seq<char>, Seq<char>)>
    decreases roms.len(),
{
    if roms.len() == 0 {
        Seq::empty()
    } else {
        rom_notes(name, roms.drop_last()) + match roms.last().sha1 {
            None => seq![("ROMs without sha1 skipped"@, debug_str(name))],
            Some(h) => if is_sha1_text(h@) {
                Seq::empty()
            } else {
                seq![("Invalid DAT sha1 skipped"@, debug_str(name) + ": "@ + sha1_error(h@))]
            },
        }
    }
}

pub open spec fn entry_notes(name: Seq<char>, roms: Seq<DatRom>) -> Seq<(Seq<char>, Seq<char>)> {
    rom_notes(name, roms) + if rom_dumps(roms).len() == 0 {
        seq![("DAT entries with no usable rom"@, debug_str(name))]
    } else {
        Seq::empty()
    }
}

pub(crate) proof fn lemma_rom_notes_bound(name: Seq<char>, roms: Seq<DatRom>)
    ensures
        rom_notes(name, roms).len() <= roms.len(),
    decreases roms.len(),
{
    if roms.len() > 0 {
        lemma_rom_notes_bound(name, roms.drop_last());
    }
}

/// The dumps of a DAT entry named `name`, in `<rom>` order: each `<rom>`
/// with a valid sha1 gives one. A `<rom>` without a sha1, or with one that
/// does not read, is reported and skipped, and so is an entry left with none.
pub fn entry_dumps(name: &str, roms: &Vec<DatRom>, report: &mut Report) -> (r: Vec<DatDump>)
    requires
        total_items(old(report)@) + roms@.len() + 1 < usize::MAX,
    ensures
        r@.map_values(|d: DatDump| dump_view(d)) == rom_dumps(roms@),
        final(report)@ == filed(old(report)@, entry_notes(name@, roms@)),
{
    let ghost r0 = report@;
    proof {
        use_type_invariant(&*report);
    }
    let mut out: Vec<DatDump> = Vec::new();
    let mut i: usize = 0;
    assert(roms@.take(0) =~= Seq::<DatRom>::empty());
    assert(out@.map_values(|d: DatDump| dump_view(d)) =~= Seq::<(Seq<char>, Option<int>, Option<Seq<char>>)>::empty());
    while i < roms.len()
        invariant
            i <= roms@.len(),
            distinct_headings(r0),
            total_items(r0) + roms@.len() + 1 < usize::MAX,
            out@.map_values(|d: DatDump| dump_view(d)) == rom_dumps(roms@.take(i as int)),
            report@ == filed(r0, rom_notes(name@, roms@.take(i as int))),
        decreases roms@.len() - i,
    {
        let ghost pre = roms@.take(i + 1);
        assert(pre.drop_last() =~= roms@.take(i as int));
        assert(pre.last() == roms@[i as int]);
        proof {
            lemma_rom_notes_bound(name@, roms@.take(i as int));
            lemma_filed(r0, rom_notes(name@, roms@.take(i as int)));
        }
        let rom = &roms[i];
        let ghost notes = rom_notes(name@, roms@.take(i as int));
        let ghost dumps = rom_dumps(roms@.take(i as int));
        match &rom.sha1 {
            None => {
                report.add("ROMs without sha1 skipped", debug_quoted(name));
                assert(notes.push(("ROMs without sha1 skipped"@, debug_str(name@))).drop_last() == notes);
                assert(rom_notes(name@, pre) =~= notes.push(("ROMs without sha1 skipped"@, debug_str(name@))));
                assert(rom_dumps(pre) =~= dumps);
            },
            Some(text) => match Sha1::parse(text.as_str()) {
                Ok(sha1) => {
                    let size = match &rom.size {
                        Some(t) => parse_u64(t.as_str()),
                        None => None,
                    };
                    let filename = match &rom.name {
                        Some(f) => Some(f.clone()),
                        None => None,
                    };
                    let ghost ob = out@.map_values(|d: DatDump| dump_view(d));
                    out.push(DatDump { sha1, size, filename });
                    assert(out@.map_values(|d: DatDump| dump_view(d)) =~= ob.push(rom_dump(roms@[i as int])->0));
                    assert(rom_dumps(pre) =~= dumps.push(rom_dump(roms@[i as int])->0));
                    assert(rom_notes(name@, pre) =~= notes);
                },
                Err(e) => {
                    let mut item = debug_quoted(name);
                    push_str(&mut item, ": ");
                    push_str(&mut item, e.as_str());
                    report.add("Invalid DAT sha1 skipped", item);
                    let ghost note = ("Invalid DAT sha1 skipped"@, debug_str(name@) + ": "@ + sha1_error(text@));
                    assert(notes.push(note).drop_last() == notes);
                    assert(rom_notes(name@, pre) =~= notes.push(note));
                    assert(rom_dumps(pre) =~= dumps);
                },
            },
        }
        i = i + 1;
    }
    assert(roms@.take(roms@.len() as int) == roms@);
    proof {
        lemma_rom_notes_bound(name@, roms@);
        lemma_filed(r0, rom_notes(name@, roms@));
    }
    if out.len() == 0 {
        report.add("DAT entries with no usable rom", debug_quoted(name));
        let ghost note = ("DAT entries with no usable rom"@, debug_str(name@));
        assert(rom_notes(name@, roms@).push(note).drop_last() == rom_notes(name@, roms@));
        assert(entry_notes(name@, roms@) =~= rom_notes(name@, roms@).push(note));
    } else {
        assert(entry_notes(name@, roms@) =~= rom_notes(name@, roms@));
    }
    out
}

} // verus!
