//! Asking a signature database what each dump actually is.
//!
//! An entry's artifacts are a claim — that these hashes are dumps of this
//! game. The sweep asks the database per hash and reports the answer,
//! including anything that contradicts where the hash sits. Nothing is
//! written to the manifest: the hash is re-checkable at any time.
//!
//! Fetching, waiting between requests and the answer cache are the caller's
//! part; these functions decide which hashes to ask about and what each
//! answer means.
use vstd::prelude::*;

use crate::game::{Artifact, Game, Release};
use crate::json::{
    JsonTopView, get_member, json_get, json_string, json_top, member_views, parse_json, string_of,
};
use crate::platform::Platform;
use crate::report::{Report, added, total_items};
use crate::strings::{
    chars_of, debug_quoted, debug_str, find, find_in, lemma_find, lowercase, owned, push_str,
    str_eq, to_lowercase, views,
};

verus! {

broadcast use vstd::string::group_string_axioms;

/// What a sweep did.
#[derive(Clone, Copy, PartialEq, Eq, Structural, Debug)]
pub struct Stats {
    pub looked_up: usize,
    pub from_cache: usize,
    pub confirmed: usize,
    pub derived: usize,
    pub unknown: usize,
}

/// How a sweep runs.
#[derive(Clone, Debug)]
pub struct Options {
    /// Milliseconds between requests.
    pub delay: u64,
    /// Restrict the sweep to one `tree/slug`.
    pub key: Option<String>,
    pub limit: Option<usize>,
    pub cache_path: String,
}

/// What the signature database said about one hash.
#[derive(Clone, Debug)]
pub enum Answer {
    /// Recognised; the string is the signature entry's own name.
    Known(String),
    /// No signature database entry. Common for homebrew and protos.
    Unknown,
}

/// An answer's view: the entry's name, or `None` for no entry.
pub open spec fn answer_view(a: Answer) -> Option<Seq<char>> {
    match a {
        Answer::Known(name) => Some(name@),
        Answer::Unknown => None,
    }
}

/// TOSEC-style bracket flags that mean "this dump is not the plain original",
/// longest first so a translation does not match the trained flag; the
/// alternate (`[a]`) and verified (`[!]`) flags are deliberately absent.
pub open spec fn derived_flags() -> Seq<(Seq<char>, Seq<char>)> {
    seq![
        ("[tr"@, "translation"@),
        ("[cr"@, "cracked"@),
        ("[h"@, "hack"@),
        ("[t"@, "trained"@),
        ("[b"@, "bad dump"@),
        ("[o"@, "overdump"@),
    ]
}

/// The reason of the first flag, in order, that occurs in the text.
pub open spec fn first_flag(text: Seq<char>, flags: Seq<(Seq<char>, Seq<char>)>) -> Option<Seq<char>>
    decreases flags.len(),
{
    if flags.len() == 0 {
        None
    } else if find(text, flags[0].0) is Some {
        Some(flags[0].1)
    } else {
        first_flag(text, flags.drop_first())
    }
}

/// Why a signature names a derived dump, if it does: the first flag its
/// lowercased name carries.
pub open spec fn derived_of(signature: Seq<char>) -> Option<Seq<char>> {
    first_flag(lowercase(signature), derived_flags())
}

fn occurs(text: &Vec<char>, pat: &str) -> (b: bool)
    ensures
        b == (find(text@, pat@) is Some),
{
    let p = chars_of(pat);
    match find_in(text, &p, 0) {
        Some(_) => true,
        None => false,
    }
}

/// Why a signature names a derived dump, if it does.
pub fn derived_reason(signature: &str) -> (r: Option<&'static str>)
    ensures
        match derived_of(signature@) {
            Some(reason) => r matches Some(s) && s@ == reason,
            None => r is None,
        },
{
    let lower_text = to_lowercase(signature);
    let lower = chars_of(lower_text.as_str());
    let ghost fl = derived_flags();
    assert(fl.drop_first() == seq![("[cr"@, "cracked"@), ("[h"@, "hack"@), ("[t"@, "trained"@), ("[b"@, "bad dump"@), ("[o"@, "overdump"@)]);
    assert(fl.drop_first().drop_first() == seq![("[h"@, "hack"@), ("[t"@, "trained"@), ("[b"@, "bad dump"@), ("[o"@, "overdump"@)]);
    assert(fl.drop_first().drop_first().drop_first() == seq![("[t"@, "trained"@), ("[b"@, "bad dump"@), ("[o"@, "overdump"@)]);
    assert(fl.drop_first().drop_first().drop_first().drop_first() == seq![("[b"@, "bad dump"@), ("[o"@, "overdump"@)]);
    assert(fl.drop_first().drop_first().drop_first().drop_first().drop_first() == seq![("[o"@, "overdump"@)]);
    assert(fl.drop_first().drop_first().drop_first().drop_first().drop_first().drop_first().len() == 0);
    proof {
        reveal_with_fuel(first_flag, 7);
    }
    if occurs(&lower, "[tr") {
        Some("translation")
    } else if occurs(&lower, "[cr") {
        Some("cracked")
    } else if occurs(&lower, "[h") {
        Some("hack")
    } else if occurs(&lower, "[t") {
        Some("trained")
    } else if occurs(&lower, "[b") {
        Some("bad dump")
    } else if occurs(&lower, "[o") {
        Some("overdump")
    } else {
        None
    }
}

/// What a lookup's reply means: a bare JSON string is a miss; otherwise the
/// signature's ROM name, or failing that the top-level name, is the entry.
pub fn answer_from_reply(bare_string: bool, rom_name: Option<String>, name: Option<String>) -> (a: Answer)
    ensures
        answer_view(a) == if bare_string {
            None
        } else {
            match rom_name {
                Some(n) => Some(n@),
                None => match name {
                    Some(n) => Some(n@),
                    None => None,
                },
            }
        },
{
    if bare_string {
        return Answer::Unknown;
    }
    match rom_name {
        Some(n) => Answer::Known(n),
        None => match name {
            Some(n) => Answer::Known(n),
            None => Answer::Unknown,
        },
    }
}

/// The signature's ROM name a reply states: `signature.rom.name`, where it
/// is a string.
pub open spec fn reply_rom_name(reply: Result<JsonTopView, Seq<char>>) -> Option<Seq<char>> {
    match json_get(reply, "signature"@) {
        Some(sig) => match json_get(json_top(sig), "rom"@) {
            Some(rom) => match json_get(json_top(rom), "name"@) {
                Some(n) => json_string(n),
                None => None,
            },
            None => None,
        },
        None => None,
    }
}

/// The top-level name a reply states, where it is a string.
pub open spec fn reply_name(reply: Result<JsonTopView, Seq<char>>) -> Option<Seq<char>> {
    match json_get(reply, "name"@) {
        Some(n) => json_string(n),
        None => None,
    }
}

/// What a lookup's reply body means: a bare JSON string is a miss;
/// otherwise the signature's ROM name, or failing that the top-level name,
/// is the entry. A body that is not JSON gives the parser's error.
pub fn answer_from_body(body: &str) -> (r: Result<Answer, String>)
    ensures
        match json_top(body@) {
            Err(e) => r matches Err(m) && m@ == e,
            Ok(top) => r matches Ok(a) && answer_view(a) == if top.0 is Some {
                None
            } else {
                match reply_rom_name(json_top(body@)) {
                    Some(n) => Some(n),
                    None => reply_name(json_top(body@)),
                }
            },
        },
{
    let top = match parse_json(body) {
        Ok(top) => top,
        Err(e) => {
            return Err(e);
        },
    };
    let bare = top.string.is_some();
    let rom_name = match get_member(body, "signature") {
        Some(sig) => match get_member(sig.as_str(), "rom") {
            Some(rom) => match get_member(rom.as_str(), "name") {
                Some(n) => string_of(n.as_str()),
                None => None,
            },
            None => None,
        },
        None => None,
    };
    let name = match get_member(body, "name") {
        Some(n) => string_of(n.as_str()),
        None => None,
    };
    Ok(answer_from_reply(bare, rom_name, name))
}

/// The answers a cache file holds: a JSON object whose members are all
/// strings, in the object's order; any other text holds none.
pub open spec fn cache_entries(text: Seq<char>) -> Seq<(Seq<char>, Seq<char>)> {
    match json_top(text) {
        Ok((_, Some(ms))) => if forall|k: int| 0 <= k < ms.len() ==> json_string(#[trigger] ms[k].1) is Some {
            ms.map_values(|m: (Seq<char>, Seq<char>)| (m.0, json_string(m.1)->Some_0))
        } else {
            Seq::empty()
        },
        _ => Seq::empty(),
    }
}

/// Reads the answer cache's text: each hash with the answer cached for it.
pub fn cache_from_text(text: &str) -> (r: Vec<(String, String)>)
    ensures
        member_views(r@) == cache_entries(text@),
{
    let ms = match parse_json(text) {
        Ok(top) => match top.members {
            Some(ms) => ms,
            None => {
                return Vec::new();
            },
        },
        Err(_) => {
            return Vec::new();
        },
    };
    let ghost mv = member_views(ms@);
    assert(json_top(text@) matches Ok((_, Some(m))) && m == mv);
    let mut out: Vec<(String, String)> = Vec::new();
    let mut k: usize = 0;
    while k < ms.len()
        invariant
            k <= ms@.len(),
            mv == member_views(ms@),
            json_top(text@) matches Ok((_, Some(m))) && m == mv,
            forall|i: int| 0 <= i < k ==> json_string(#[trigger] mv[i].1) is Some,
            member_views(out@) == mv.take(k as int).map_values(
                |m: (Seq<char>, Seq<char>)| (m.0, json_string(m.1)->Some_0),
            ),
        decreases ms@.len() - k,
    {
        assert(mv[k as int] == (ms@[k as int].0@, ms@[k as int].1@));
        match string_of(ms[k].1.as_str()) {
            Some(v) => {
                let ghost before = out@;
                out.push((ms[k].0.clone(), v));
                assert(member_views(out@) =~= member_views(before).push((mv[k as int].0, json_string(mv[k as int].1)->Some_0)));
                assert(mv.take(k + 1) =~= mv.take(k as int).push(mv[k as int]));
                assert(mv.take(k + 1).map_values(|m: (Seq<char>, Seq<char>)| (m.0, json_string(m.1)->Some_0))
                    =~= mv.take(k as int).map_values(|m: (Seq<char>, Seq<char>)| (m.0, json_string(m.1)->Some_0)).push(
                    (mv[k as int].0, json_string(mv[k as int].1)->Some_0),
                ));
            },
            None => {
                assert(json_string(mv[k as int].1) is None);
                assert(!(forall|i: int| 0 <= i < mv.len() ==> json_string(#[trigger] mv[i].1) is Some));
                let empty: Vec<(String, String)> = Vec::new();
                assert(member_views(empty@) =~= Seq::<(Seq<char>, Seq<char>)>::empty());
                return empty;
            },
        }
        k = k + 1;
    }
    assert(mv.take(k as int) == mv);
    out
}

/// A cached answer: the empty string records a miss.
pub fn cached_answer(cached: &str, stats: &mut Stats) -> (a: Answer)
    requires
        old(stats).from_cache < usize::MAX,
    ensures
        answer_view(a) == if cached@.len() == 0 {
            None
        } else {
            Some(cached@)
        },
        *final(stats) == (Stats { from_cache: (old(stats).from_cache + 1) as usize, ..*old(stats) }),
{
    stats.from_cache = stats.from_cache + 1;
    if chars_of(cached).len() == 0 {
        Answer::Unknown
    } else {
        Answer::Known(owned(cached))
    }
}

/// What the cache keeps for an answer: the entry's name, or the empty string
/// for a miss.
pub fn cache_value(answer: &Answer) -> (v: String)
    ensures
        v@ == match answer_view(*answer) {
            Some(n) => n,
            None => Seq::empty(),
        },
{
    match answer {
        Answer::Known(name) => owned(name.as_str()),
        Answer::Unknown => String::new(),
    }
}

/// Whether the sweep has made as many fresh lookups as it may.
pub fn limit_reached(limit: Option<usize>, looked_up: usize) -> (b: bool)
    ensures
        b == (limit matches Some(n) && looked_up >= n),
{
    match limit {
        Some(n) => looked_up >= n,
        None => false,
    }
}

/// Whether a fresh lookup count calls for saving the cache: every fiftieth,
/// since a sweep of this size will be interrupted.
pub fn checkpoint_due(looked_up: usize) -> (b: bool)
    ensures
        b == (looked_up % 50 == 0),
{
    looked_up % 50 == 0
}

/// Whether the sweep covers an entry: every entry, or the one `tree/slug`
/// the key names.
pub fn entry_selected(key: &Option<String>, dir: &str, slug: &str) -> (b: bool)
    ensures
        b == match key {
            Some(k) => k@ == dir@ + "/"@ + slug@,
            None => true,
        },
{
    match key {
        Some(want) => {
            let mut here = owned(dir);
            push_str(&mut here, "/");
            push_str(&mut here, slug);
            str_eq(want.as_str(), here.as_str())
        },
        None => true,
    }
}

pub open spec fn artifact_hashes(arts: Seq<Artifact>) -> Seq<Seq<char>> {
    arts.map_values(|a: Artifact| a.sha1@)
}

/// The hashes of every release's artifacts, in order.
pub open spec fn release_hashes<P: Platform>(rs: Seq<Release<P>>) -> Seq<Seq<char>>
    decreases rs.len(),
{
    if rs.len() == 0 {
        Seq::empty()
    } else {
        release_hashes(rs.drop_last()) + artifact_hashes(rs.last().artifacts@)
    }
}

/// The hashes a game's releases claim, in order.
pub fn game_hashes<P: Platform>(game: &Game<P>) -> (hs: Vec<String>)
    ensures
        views(hs@) == release_hashes(game.releases@),
{
    let mut hs: Vec<String> = Vec::new();
    let mut i: usize = 0;
    assert(game.releases@.take(0) =~= Seq::<Release<P>>::empty());
    assert(views(hs@) =~= Seq::<Seq<char>>::empty());
    while i < game.releases.len()
        invariant
            i <= game.releases@.len(),
            views(hs@) == release_hashes(game.releases@.take(i as int)),
        decreases game.releases@.len() - i,
    {
        assert(game.releases@.take(i + 1).drop_last() == game.releases@.take(i as int));
        assert(game.releases@.take(i + 1).last() == game.releases@[i as int]);
        let arts = &game.releases[i].artifacts;
        let ghost base = views(hs@);
        let mut j: usize = 0;
        assert(artifact_hashes(arts@).take(0) =~= Seq::<Seq<char>>::empty());
        assert(base + Seq::<Seq<char>>::empty() == base);
        while j < arts.len()
            invariant
                j <= arts@.len(),
                views(hs@) == base + artifact_hashes(arts@).take(j as int),
            decreases arts@.len() - j,
        {
            let ghost before = views(hs@);
            hs.push(owned(arts[j].sha1.as_str()));
            assert(artifact_hashes(arts@).take(j + 1) =~= artifact_hashes(arts@).take(j as int).push(
                arts@[j as int].sha1@,
            ));
            assert(views(hs@) =~= before.push(arts@[j as int].sha1@));
            j = j + 1;
        }
        assert(artifact_hashes(arts@).take(arts@.len() as int) == artifact_hashes(arts@));
        i = i + 1;
    }
    assert(game.releases@.take(game.releases@.len() as int) == game.releases@);
    hs
}

/// The report section and line an answer files for a hash of an entry.
pub open spec fn answer_item(dir: Seq<char>, slug: Seq<char>, sha1: Seq<char>, answer: Option<Seq<char>>) -> (
    Seq<char>,
    Seq<char>,
) {
    let at = dir + "/"@ + slug + ": "@ + sha1;
    match answer {
        None => ("Unknown to the signature database"@, at),
        Some(name) => match derived_of(name) {
            Some(reason) => (
                "Derived dump sitting in a release"@,
                at + " is "@ + debug_str(name) + " ("@ + reason + ")"@,
            ),
            None => ("Confirmed by the signature database"@, at + " is "@ + debug_str(name)),
        },
    }
}

/// Files what the database said about one hash of an entry: unknown,
/// a derived dump sitting in a release, or confirmed. Counts each kind.
pub fn record_answer(
    report: &mut Report,
    stats: &mut Stats,
    dir: &str,
    slug: &str,
    sha1: &str,
    answer: Answer,
)
    requires
        total_items(old(report)@) < usize::MAX,
        old(stats).unknown < usize::MAX,
        old(stats).derived < usize::MAX,
        old(stats).confirmed < usize::MAX,
    ensures
        final(report)@ == added(
            old(report)@,
            answer_item(dir@, slug@, sha1@, answer_view(answer)).0,
            answer_item(dir@, slug@, sha1@, answer_view(answer)).1,
        ),
        final(stats).looked_up == old(stats).looked_up,
        final(stats).from_cache == old(stats).from_cache,
        final(stats).unknown == old(stats).unknown + if answer_view(answer) is None { 1int } else { 0int },
        final(stats).derived == old(stats).derived + match answer_view(answer) {
            Some(n) => if derived_of(n) is Some { 1int } else { 0int },
            None => 0int,
        },
        final(stats).confirmed == old(stats).confirmed + match answer_view(answer) {
            Some(n) => if derived_of(n) is None { 1int } else { 0int },
            None => 0int,
        },
{
    let mut at = owned(dir);
    push_str(&mut at, "/");
    push_str(&mut at, slug);
    push_str(&mut at, ": ");
    push_str(&mut at, sha1);
    match answer {
        Answer::Unknown => {
            stats.unknown = stats.unknown + 1;
            report.add("Unknown to the signature database", at);
        },
        Answer::Known(name) => {
            let quoted = debug_quoted(name.as_str());
            match derived_reason(name.as_str()) {
                Some(reason) => {
                    stats.derived = stats.derived + 1;
                    push_str(&mut at, " is ");
                    push_str(&mut at, quoted.as_str());
                    push_str(&mut at, " (");
                    push_str(&mut at, reason);
                    push_str(&mut at, ")");
                    report.add("Derived dump sitting in a release", at);
                },
                None => {
                    stats.confirmed = stats.confirmed + 1;
                    push_str(&mut at, " is ");
                    push_str(&mut at, quoted.as_str());
                    report.add("Confirmed by the signature database", at);
                },
            }
        },
    }
}

} // verus!
