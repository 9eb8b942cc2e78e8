//! The database rules: what makes a tree of manifests valid.
//!
//! Reading the files and parsing their RON is the caller's part; these
//! functions take what was read and state every finding it earns.
use vstd::prelude::*;

use crate::game::{Artifact, Game, LinkType, Mod, ModRelease, Release};
use crate::ids::{Sha1, Slug, is_slug_text, slug_error};
use crate::platform::{GameBoy, GameBoyColor, Platform, Sg1000, Vcs};
use crate::strings::{chars_of, debug_quoted, debug_str, owned, push_str, str_eq};

verus! {

broadcast use vstd::string::group_string_axioms;

#[derive(Clone, Copy, PartialEq, Eq, Structural, Debug)]
pub enum Severity {
    Warning,
    Error,
}

pub open spec fn severity_name(s: Severity) -> Seq<char> {
    match s {
        Severity::Warning => "warning"@,
        Severity::Error => "error"@,
    }
}

impl Severity {
    /// The word a finding line prints for this severity.
    pub fn as_str(self) -> (r: &'static str)
        ensures
            r@ == severity_name(self),
    {
        match self {
            Severity::Warning => "warning",
            Severity::Error => "error",
        }
    }
}

/// A finding's view: the manifest it concerns, its severity and its message.
pub type FindingView = (Seq<char>, Severity, Seq<char>);

#[derive(Clone, Debug)]
pub struct Finding {
    pub path: String,
    pub severity: Severity,
    pub message: String,
}

impl View for Finding {
    type V = FindingView;

    open spec fn view(&self) -> FindingView {
        (self.path@, self.severity, self.message@)
    }
}

pub open spec fn finding_views(v: Seq<Finding>) -> Seq<FindingView> {
    v.map_values(|f: Finding| f@)
}

pub open spec fn error(path: Seq<char>, message: Seq<char>) -> FindingView {
    (path, Severity::Error, message)
}

pub open spec fn warning(path: Seq<char>, message: Seq<char>) -> FindingView {
    (path, Severity::Warning, message)
}

impl Finding {
    pub fn error(path: &str, message: String) -> (f: Finding)
        ensures
            f@ == error(path@, message@),
    {
        Finding { path: owned(path), severity: Severity::Error, message }
    }

    pub fn warning(path: &str, message: String) -> (f: Finding)
        ensures
            f@ == warning(path@, message@),
    {
        Finding { path: owned(path), severity: Severity::Warning, message }
    }
}

/// One manifest as the caller read it: where it sits, its text, and what
/// parsing the text gave — the game with its canonical re-serialization (or
/// the serializer's error), or the parser's error.
pub struct ManifestFile<P: Platform> {
    /// The manifest's path, as findings print it.
    pub path: String,
    /// The name of the directory the manifest sits in: the game's slug.
    pub dir_name: String,
    pub text: String,
    pub parsed: Result<(Game<P>, Result<String, String>), String>,
}

/// What one file earns before the database-wide rules: a bad slug, a parse
/// error, a serialize error or a formatting drift.
pub open spec fn file_findings<P: Platform>(f: ManifestFile<P>) -> Seq<FindingView> {
    let slug = if is_slug_text(f.dir_name@) {
        Seq::empty()
    } else {
        seq![error(f.path@, slug_error(f.dir_name@))]
    };
    let parse = match f.parsed {
        Err(e) => seq![error(f.path@, "parse error: "@ + e@)],
        Ok((_, Ok(canonical))) => if canonical@ != f.text@ {
            seq![error(f.path@, "not canonically formatted (run `gamedb fmt`)"@)]
        } else {
            Seq::empty()
        },
        Ok((_, Err(e))) => seq![error(f.path@, "serialize error: "@ + e@)],
    };
    slug + parse
}

pub open spec fn files_findings<P: Platform>(fs: Seq<ManifestFile<P>>) -> Seq<FindingView>
    decreases fs.len(),
{
    if fs.len() == 0 {
        Seq::empty()
    } else {
        files_findings(fs.drop_last()) + file_findings(fs.last())
    }
}

/// The games that parsed, each with its manifest's path, in file order.
pub open spec fn parsed_games<P: Platform>(fs: Seq<ManifestFile<P>>) -> Seq<(Seq<char>, Game<P>)>
    decreases fs.len(),
{
    if fs.len() == 0 {
        Seq::empty()
    } else {
        let rest = parsed_games(fs.drop_last());
        match fs.last().parsed {
            Ok((game, _)) => rest.push((fs.last().path@, game)),
            Err(_) => rest,
        }
    }
}

/// A dump occurrence: its sha1 and the manifest it sits in.
pub type Occurrence = (Seq<char>, Seq<char>);

/// The manifest of the latest occurrence of a sha1, if it occurred.
pub open spec fn last_holder(occ: Seq<Occurrence>, sha1: Seq<char>) -> Option<Seq<char>>
    decreases occ.len(),
{
    if occ.len() == 0 {
        None
    } else if occ.last().0 == sha1 {
        Some(occ.last().1)
    } else {
        last_holder(occ.drop_last(), sha1)
    }
}

pub open spec fn occurs(occ: Seq<Occurrence>, sha1: Seq<char>) -> bool {
    last_holder(occ, sha1) is Some
}

pub open spec fn duplicate_message(sha1: Seq<char>, first: Seq<char>) -> Seq<char> {
    "duplicate sha1 "@ + sha1 + " (also in "@ + first + ")"@
}

pub open spec fn artifact_occurrences(arts: Seq<Artifact>, path: Seq<char>) -> Seq<Occurrence> {
    arts.map_values(|a: Artifact| (a.sha1@, path))
}

/// Duplicate findings for a list of dumps, each checked against everything
/// seen before it.
pub open spec fn artifact_findings(arts: Seq<Artifact>, path: Seq<char>, occ: Seq<Occurrence>) -> Seq<
    FindingView,
>
    decreases arts.len(),
{
    if arts.len() == 0 {
        Seq::empty()
    } else {
        let seen = occ + artifact_occurrences(arts.drop_last(), path);
        artifact_findings(arts.drop_last(), path, occ) + match last_holder(
            seen,
            arts.last().sha1@,
        ) {
            Some(first) => seq![error(path, duplicate_message(arts.last().sha1@, first))],
            None => Seq::empty(),
        }
    }
}

/// A game is locatable when a link says where to obtain it, free or for sale.
pub open spec fn locatable<P: Platform>(g: Game<P>) -> bool {
    exists|i: int|
        0 <= i < g.links@.len() && (#[trigger] g.links@[i].link_type == LinkType::Download
            || g.links@[i].link_type == LinkType::DownloadPage || g.links@[i].link_type
            == LinkType::Store)
}

pub open spec fn release_occurrences<P: Platform>(rs: Seq<Release<P>>, path: Seq<char>) -> Seq<
    Occurrence,
>
    decreases rs.len(),
{
    if rs.len() == 0 {
        Seq::empty()
    } else {
        release_occurrences(rs.drop_last(), path) + artifact_occurrences(rs.last().artifacts@, path)
    }
}

pub open spec fn release_findings<P: Platform>(
    rs: Seq<Release<P>>,
    path: Seq<char>,
    located: bool,
    occ: Seq<Occurrence>,
) -> Seq<FindingView>
    decreases rs.len(),
{
    if rs.len() == 0 {
        Seq::empty()
    } else {
        let r = rs.last();
        let missing = if r.artifacts@.len() == 0 && !located {
            seq![error(path, "release has no artifacts and the game has no download link"@)]
        } else {
            Seq::empty()
        };
        release_findings(rs.drop_last(), path, located, occ) + missing + artifact_findings(
            r.artifacts@,
            path,
            occ + release_occurrences(rs.drop_last(), path),
        )
    }
}

pub open spec fn mod_release_occurrences<P: Platform>(rs: Seq<ModRelease<P>>, path: Seq<char>) -> Seq<
    Occurrence,
>
    decreases rs.len(),
{
    if rs.len() == 0 {
        Seq::empty()
    } else {
        mod_release_occurrences(rs.drop_last(), path) + artifact_occurrences(
            rs.last().artifacts@,
            path,
        )
    }
}

pub open spec fn mod_release_findings<P: Platform>(
    rs: Seq<ModRelease<P>>,
    path: Seq<char>,
    occ: Seq<Occurrence>,
) -> Seq<FindingView>
    decreases rs.len(),
{
    if rs.len() == 0 {
        Seq::empty()
    } else {
        mod_release_findings(rs.drop_last(), path, occ) + artifact_findings(
            rs.last().artifacts@,
            path,
            occ + mod_release_occurrences(rs.drop_last(), path),
        )
    }
}

pub open spec fn mods_occurrences<P: Platform>(ms: Seq<Mod<P>>, path: Seq<char>) -> Seq<Occurrence>
    decreases ms.len(),
{
    if ms.len() == 0 {
        Seq::empty()
    } else {
        mods_occurrences(ms.drop_last(), path) + mod_release_occurrences(ms.last().releases@, path)
    }
}

pub open spec fn mods_findings<P: Platform>(
    ms: Seq<Mod<P>>,
    path: Seq<char>,
    occ: Seq<Occurrence>,
) -> Seq<FindingView>
    decreases ms.len(),
{
    if ms.len() == 0 {
        Seq::empty()
    } else {
        mods_findings(ms.drop_last(), path, occ) + mod_release_findings(
            ms.last().releases@,
            path,
            occ + mods_occurrences(ms.drop_last(), path),
        )
    }
}

pub open spec fn game_occurrences<P: Platform>(g: Game<P>, path: Seq<char>) -> Seq<Occurrence> {
    release_occurrences(g.releases@, path) + mods_occurrences(g.mods@, path)
}

/// What one game earns under the database-wide rules, given the dumps seen
/// in the games before it.
pub open spec fn game_findings<P: Platform>(g: Game<P>, path: Seq<char>, occ: Seq<Occurrence>) -> Seq<
    FindingView,
> {
    let empty = if g.releases@.len() == 0 {
        seq![error(path, "game has no releases"@)]
    } else {
        Seq::empty()
    };
    empty + release_findings(g.releases@, path, locatable(g), occ) + mods_findings(
        g.mods@,
        path,
        occ + release_occurrences(g.releases@, path),
    )
}

pub open spec fn games_occurrences<P: Platform>(gs: Seq<(Seq<char>, Game<P>)>) -> Seq<Occurrence>
    decreases gs.len(),
{
    if gs.len() == 0 {
        Seq::empty()
    } else {
        games_occurrences(gs.drop_last()) + game_occurrences(gs.last().1, gs.last().0)
    }
}

pub open spec fn games_findings<P: Platform>(gs: Seq<(Seq<char>, Game<P>)>) -> Seq<FindingView>
    decreases gs.len(),
{
    if gs.len() == 0 {
        Seq::empty()
    } else {
        games_findings(gs.drop_last()) + game_findings(
            gs.last().1,
            gs.last().0,
            games_occurrences(gs.drop_last()),
        )
    }
}


pub open spec fn unresolved_release_bases<P: Platform>(
    rs: Seq<ModRelease<P>>,
    name: Seq<char>,
    path: Seq<char>,
    seen: Seq<Occurrence>,
    dir: Seq<char>,
) -> Seq<FindingView>
    decreases rs.len(),
{
    if rs.len() == 0 {
        Seq::empty()
    } else {
        unresolved_release_bases(rs.drop_last(), name, path, seen, dir) + match rs.last().base_sha1 {
            Some(base) => if !occurs(seen, base@) {
                seq![
                    warning(
                        path,
                        "mod "@ + debug_str(name) + " base sha1 "@ + base@ + " not found in the "@
                            + dir + " tree"@,
                    ),
                ]
            } else {
                Seq::empty()
            },
            None => Seq::empty(),
        }
    }
}

pub open spec fn unresolved_mod_bases<P: Platform>(
    ms: Seq<Mod<P>>,
    path: Seq<char>,
    seen: Seq<Occurrence>,
    dir: Seq<char>,
) -> Seq<FindingView>
    decreases ms.len(),
{
    if ms.len() == 0 {
        Seq::empty()
    } else {
        unresolved_mod_bases(ms.drop_last(), path, seen, dir) + unresolved_release_bases(
            ms.last().releases@,
            ms.last().name@,
            path,
            seen,
            dir,
        )
    }
}

/// Warnings for a game whose mods or derivation name a base dump the tree
/// does not hold.
pub open spec fn unresolved_bases<P: Platform>(
    g: Game<P>,
    path: Seq<char>,
    seen: Seq<Occurrence>,
    dir: Seq<char>,
) -> Seq<FindingView> {
    unresolved_mod_bases(g.mods@, path, seen, dir) + match g.mod_of {
        Some(m) => if !occurs(seen, m.base_sha1@) {
            seq![
                warning(
                    path,
                    "mod base sha1 "@ + m.base_sha1@ + " not found in the "@ + dir + " tree"@,
                ),
            ]
        } else {
            Seq::empty()
        },
        None => Seq::empty(),
    }
}

pub open spec fn games_unresolved<P: Platform>(
    gs: Seq<(Seq<char>, Game<P>)>,
    seen: Seq<Occurrence>,
    dir: Seq<char>,
) -> Seq<FindingView>
    decreases gs.len(),
{
    if gs.len() == 0 {
        Seq::empty()
    } else {
        games_unresolved(gs.drop_last(), seen, dir) + unresolved_bases(
            gs.last().1,
            gs.last().0,
            seen,
            dir,
        )
    }
}

/// Every finding a platform tree earns, in the order they are reported:
/// per-file findings, then the duplicate and completeness rules game by game,
/// then unresolved mod bases against every dump the tree holds.
pub open spec fn tree_findings<P: Platform>(fs: Seq<ManifestFile<P>>) -> Seq<FindingView> {
    let games = parsed_games(fs);
    files_findings(fs) + games_findings(games) + games_unresolved(
        games,
        games_occurrences(games),
        P::spec_dir(),
    )
}

pub open spec fn occ_view(v: Seq<(Vec<char>, String)>) -> Seq<Occurrence> {
    v.map_values(|p: (Vec<char>, String)| (p.0@, p.1@))
}

fn chars_eq(a: &Vec<char>, b: &Vec<char>) -> (r: bool)
    ensures
        r == (a@ == b@),
{
    if a.len() != b.len() {
        return false;
    }
    let mut i: usize = 0;
    while i < a.len()
        invariant
            a@.len() == b@.len(),
            i <= a@.len(),
            forall|j: int| 0 <= j < i ==> a@[j] == b@[j],
        decreases a@.len() - i,
    {
        if a[i] != b[i] {
            return false;
        }
        i = i + 1;
    }
    assert(a@ =~= b@);
    true
}

/// The position of the latest occurrence of a sha1.
fn latest(occ: &Vec<(Vec<char>, String)>, sha1: &Vec<char>) -> (r: Option<usize>)
    ensures
        match last_holder(occ_view(occ@), sha1@) {
            Some(path) => r matches Some(k) && k < occ@.len() && occ@[k as int].1@ == path,
            None => r is None,
        },
{
    let mut i: usize = occ.len();
    assert(occ_view(occ@).take(i as int) == occ_view(occ@));
    while i > 0
        invariant
            i <= occ@.len(),
            last_holder(occ_view(occ@), sha1@) == last_holder(occ_view(occ@).take(i as int), sha1@),
        decreases i,
    {
        let ghost pre = occ_view(occ@).take(i as int);
        assert(pre.drop_last() == occ_view(occ@).take(i - 1));
        assert(pre.last() == (occ@[i - 1].0@, occ@[i - 1].1@));
        if chars_eq(&occ[i - 1].0, sha1) {
            return Some(i - 1);
        }
        i = i - 1;
    }
    None
}

/// Records each dump's occurrence and reports each that occurred before.
fn check_artifacts(
    arts: &Vec<Artifact>,
    path: &String,
    occ: &mut Vec<(Vec<char>, String)>,
    out: &mut Vec<Finding>,
)
    ensures
        occ_view(final(occ)@) == occ_view(old(occ)@) + artifact_occurrences(arts@, path@),
        finding_views(final(out)@) == finding_views(old(out)@) + artifact_findings(
            arts@,
            path@,
            occ_view(old(occ)@),
        ),
{
    let ghost occ0 = occ_view(occ@);
    let ghost out0 = finding_views(out@);
    let mut i: usize = 0;
    assert(arts@.take(0) =~= Seq::<Artifact>::empty());
    assert(occ_view(occ@) =~= occ0 + artifact_occurrences(arts@.take(0), path@));
    while i < arts.len()
        invariant
            i <= arts@.len(),
            occ_view(occ@) == occ0 + artifact_occurrences(arts@.take(i as int), path@),
            finding_views(out@) == out0 + artifact_findings(arts@.take(i as int), path@, occ0),
        decreases arts@.len() - i,
    {
        let ghost pre = arts@.take(i + 1);
        assert(pre.drop_last() == arts@.take(i as int));
        assert(pre.last() == arts@[i as int]);
        let sha1 = chars_of(arts[i].sha1.as_str());
        match latest(occ, &sha1) {
            Some(k) => {
                let mut message = owned("duplicate sha1 ");
                push_str(&mut message, arts[i].sha1.as_str());
                push_str(&mut message, " (also in ");
                push_str(&mut message, occ[k].1.as_str());
                push_str(&mut message, ")");
                let f = Finding::error(path.as_str(), message);
                let ghost before = out@;
                out.push(f);
                assert(finding_views(out@) =~= finding_views(before).push(f@));
            },
            None => {},
        }
        let ghost occ_before = occ@;
        occ.push((sha1, path.clone()));
        assert(occ_view(occ@) =~= occ_view(occ_before).push((arts@[i as int].sha1@, path@)));
        assert(artifact_occurrences(pre, path@) =~= artifact_occurrences(arts@.take(i as int), path@).push(
            (arts@[i as int].sha1@, path@)));
        i = i + 1;
    }
    assert(arts@.take(arts@.len() as int) == arts@);
}


fn check_releases<P: Platform>(
    rs: &Vec<Release<P>>,
    path: &String,
    located: bool,
    occ: &mut Vec<(Vec<char>, String)>,
    out: &mut Vec<Finding>,
)
    ensures
        occ_view(final(occ)@) == occ_view(old(occ)@) + release_occurrences(rs@, path@),
        finding_views(final(out)@) == finding_views(old(out)@) + release_findings(
            rs@,
            path@,
            located,
            occ_view(old(occ)@),
        ),
{
    let ghost occ0 = occ_view(occ@);
    let ghost out0 = finding_views(out@);
    let mut i: usize = 0;
    assert(rs@.take(0) =~= Seq::<Release<P>>::empty());
    assert(occ_view(occ@) =~= occ0 + release_occurrences(rs@.take(0), path@));
    assert(finding_views(out@) =~= out0 + release_findings(rs@.take(0), path@, located, occ0));
    while i < rs.len()
        invariant
            i <= rs@.len(),
            occ_view(occ@) == occ0 + release_occurrences(rs@.take(i as int), path@),
            finding_views(out@) == out0 + release_findings(rs@.take(i as int), path@, located, occ0),
        decreases rs@.len() - i,
    {
        let ghost pre = rs@.take(i + 1);
        assert(pre.drop_last() == rs@.take(i as int));
        assert(pre.last() == rs@[i as int]);
        if rs[i].artifacts.len() == 0 && !located {
            let f = Finding::error(
                path.as_str(),
                owned("release has no artifacts and the game has no download link"),
            );
            let ghost before = out@;
            out.push(f);
            assert(finding_views(out@) =~= finding_views(before).push(f@));
        }
        check_artifacts(&rs[i].artifacts, path, occ, out);
        i = i + 1;
    }
    assert(rs@.take(rs@.len() as int) == rs@);
}

fn check_mod_releases<P: Platform>(
    rs: &Vec<ModRelease<P>>,
    path: &String,
    occ: &mut Vec<(Vec<char>, String)>,
    out: &mut Vec<Finding>,
)
    ensures
        occ_view(final(occ)@) == occ_view(old(occ)@) + mod_release_occurrences(rs@, path@),
        finding_views(final(out)@) == finding_views(old(out)@) + mod_release_findings(
            rs@,
            path@,
            occ_view(old(occ)@),
        ),
{
    let ghost occ0 = occ_view(occ@);
    let ghost out0 = finding_views(out@);
    let mut i: usize = 0;
    assert(rs@.take(0) =~= Seq::<ModRelease<P>>::empty());
    assert(occ_view(occ@) =~= occ0 + mod_release_occurrences(rs@.take(0), path@));
    assert(finding_views(out@) =~= out0 + mod_release_findings(rs@.take(0), path@, occ0));
    while i < rs.len()
        invariant
            i <= rs@.len(),
            occ_view(occ@) == occ0 + mod_release_occurrences(rs@.take(i as int), path@),
            finding_views(out@) == out0 + mod_release_findings(rs@.take(i as int), path@, occ0),
        decreases rs@.len() - i,
    {
        let ghost pre = rs@.take(i + 1);
        assert(pre.drop_last() == rs@.take(i as int));
        assert(pre.last() == rs@[i as int]);
        check_artifacts(&rs[i].artifacts, path, occ, out);
        i = i + 1;
    }
    assert(rs@.take(rs@.len() as int) == rs@);
}

fn check_mods<P: Platform>(
    ms: &Vec<Mod<P>>,
    path: &String,
    occ: &mut Vec<(Vec<char>, String)>,
    out: &mut Vec<Finding>,
)
    ensures
        occ_view(final(occ)@) == occ_view(old(occ)@) + mods_occurrences(ms@, path@),
        finding_views(final(out)@) == finding_views(old(out)@) + mods_findings(
            ms@,
            path@,
            occ_view(old(occ)@),
        ),
{
    let ghost occ0 = occ_view(occ@);
    let ghost out0 = finding_views(out@);
    let mut i: usize = 0;
    assert(ms@.take(0) =~= Seq::<Mod<P>>::empty());
    assert(occ_view(occ@) =~= occ0 + mods_occurrences(ms@.take(0), path@));
    assert(finding_views(out@) =~= out0 + mods_findings(ms@.take(0), path@, occ0));
    while i < ms.len()
        invariant
            i <= ms@.len(),
            occ_view(occ@) == occ0 + mods_occurrences(ms@.take(i as int), path@),
            finding_views(out@) == out0 + mods_findings(ms@.take(i as int), path@, occ0),
        decreases ms@.len() - i,
    {
        let ghost pre = ms@.take(i + 1);
        assert(pre.drop_last() == ms@.take(i as int));
        assert(pre.last() == ms@[i as int]);
        check_mod_releases(&ms[i].releases, path, occ, out);
        i = i + 1;
    }
    assert(ms@.take(ms@.len() as int) == ms@);
}

fn is_locatable<P: Platform>(g: &Game<P>) -> (b: bool)
    ensures
        b == locatable(*g),
{
    let mut i: usize = 0;
    while i < g.links.len()
        invariant
            i <= g.links@.len(),
            forall|k: int|
                0 <= k < i ==> !(#[trigger] g.links@[k].link_type == LinkType::Download
                    || g.links@[k].link_type == LinkType::DownloadPage || g.links@[k].link_type
                    == LinkType::Store),
        decreases g.links@.len() - i,
    {
        let t = g.links[i].link_type;
        if t == LinkType::Download || t == LinkType::DownloadPage || t == LinkType::Store {
            return true;
        }
        i = i + 1;
    }
    false
}

fn check_game<P: Platform>(
    g: &Game<P>,
    path: &String,
    occ: &mut Vec<(Vec<char>, String)>,
    out: &mut Vec<Finding>,
)
    ensures
        occ_view(final(occ)@) == occ_view(old(occ)@) + game_occurrences(*g, path@),
        finding_views(final(out)@) == finding_views(old(out)@) + game_findings(
            *g,
            path@,
            occ_view(old(occ)@),
        ),
{
    let ghost occ0 = occ_view(occ@);
    let ghost out0 = finding_views(out@);
    if g.releases.len() == 0 {
        let f = Finding::error(path.as_str(), owned("game has no releases"));
        out.push(f);
        assert(finding_views(out@) =~= out0.push(f@));
    }
    let ghost out1 = finding_views(out@);
    let located = is_locatable(g);
    check_releases(&g.releases, path, located, occ, out);
    check_mods(&g.mods, path, occ, out);
    assert(finding_views(out@) =~= out0 + game_findings(*g, path@, occ0));
    assert(occ_view(occ@) =~= occ0 + game_occurrences(*g, path@));
}

fn check_games<P: Platform>(games: &Vec<(String, Game<P>)>, out: &mut Vec<Finding>) -> (occ: Vec<
    (Vec<char>, String),
>)
    ensures
        occ_view(occ@) == games_occurrences(game_views(games@)),
        finding_views(final(out)@) == finding_views(old(out)@) + games_findings(
            game_views(games@),
        ),
{
    let ghost out0 = finding_views(out@);
    let mut occ: Vec<(Vec<char>, String)> = Vec::new();
    let mut i: usize = 0;
    assert(game_views(games@).take(0) =~= Seq::<(Seq<char>, Game<P>)>::empty());
    assert(occ_view(occ@) =~= Seq::<Occurrence>::empty());
    assert(finding_views(out@) =~= out0 + Seq::<FindingView>::empty());
    while i < games.len()
        invariant
            i <= games@.len(),
            occ_view(occ@) == games_occurrences(game_views(games@).take(i as int)),
            finding_views(out@) == out0 + games_findings(game_views(games@).take(i as int)),
        decreases games@.len() - i,
    {
        let ghost pre = game_views(games@).take(i + 1);
        assert(pre.drop_last() == game_views(games@).take(i as int));
        assert(pre.last() == (games@[i as int].0@, games@[i as int].1));
        check_game(&games[i].1, &games[i].0, &mut occ, out);
        i = i + 1;
    }
    assert(game_views(games@).take(games@.len() as int) == game_views(games@));
    occ
}

pub open spec fn game_views<P: Platform>(gs: Seq<(String, Game<P>)>) -> Seq<(Seq<char>, Game<P>)> {
    gs.map_values(|g: (String, Game<P>)| (g.0@, g.1))
}

fn seen_in(occ: &Vec<(Vec<char>, String)>, sha1: &Sha1) -> (b: bool)
    ensures
        b == occurs(occ_view(occ@), sha1@),
{
    let chars = chars_of(sha1.as_str());
    latest(occ, &chars).is_some()
}

fn check_release_bases<P: Platform>(
    rs: &Vec<ModRelease<P>>,
    name: &String,
    path: &String,
    occ: &Vec<(Vec<char>, String)>,
    dir: &str,
    out: &mut Vec<Finding>,
)
    ensures
        finding_views(final(out)@) == finding_views(old(out)@) + unresolved_release_bases(
            rs@,
            name@,
            path@,
            occ_view(occ@),
            dir@,
        ),
{
    let ghost out0 = finding_views(out@);
    let mut i: usize = 0;
    assert(rs@.take(0) =~= Seq::<ModRelease<P>>::empty());
    assert(finding_views(out@) =~= out0 + Seq::<FindingView>::empty());
    while i < rs.len()
        invariant
            i <= rs@.len(),
            finding_views(out@) == out0 + unresolved_release_bases(
                rs@.take(i as int),
                name@,
                path@,
                occ_view(occ@),
                dir@,
            ),
        decreases rs@.len() - i,
    {
        let ghost pre = rs@.take(i + 1);
        assert(pre.drop_last() == rs@.take(i as int));
        assert(pre.last() == rs@[i as int]);
        match &rs[i].base_sha1 {
            Some(base) => {
                if !seen_in(occ, base) {
                    let mut message = owned("mod ");
                    let quoted = debug_quoted(name.as_str());
                    push_str(&mut message, quoted.as_str());
                    push_str(&mut message, " base sha1 ");
                    push_str(&mut message, base.as_str());
                    push_str(&mut message, " not found in the ");
                    push_str(&mut message, dir);
                    push_str(&mut message, " tree");
                    let f = Finding::warning(path.as_str(), message);
                    let ghost before = out@;
                    out.push(f);
                    assert(finding_views(out@) =~= finding_views(before).push(f@));
                }
            },
            None => {},
        }
        i = i + 1;
    }
    assert(rs@.take(rs@.len() as int) == rs@);
}

fn check_bases<P: Platform>(
    g: &Game<P>,
    path: &String,
    occ: &Vec<(Vec<char>, String)>,
    dir: &str,
    out: &mut Vec<Finding>,
)
    ensures
        finding_views(final(out)@) == finding_views(old(out)@) + unresolved_bases(
            *g,
            path@,
            occ_view(occ@),
            dir@,
        ),
{
    let ghost out0 = finding_views(out@);
    let mut i: usize = 0;
    assert(g.mods@.take(0) =~= Seq::<Mod<P>>::empty());
    assert(finding_views(out@) =~= out0 + Seq::<FindingView>::empty());
    while i < g.mods.len()
        invariant
            i <= g.mods@.len(),
            finding_views(out@) == out0 + unresolved_mod_bases(
                g.mods@.take(i as int),
                path@,
                occ_view(occ@),
                dir@,
            ),
        decreases g.mods@.len() - i,
    {
        let ghost pre = g.mods@.take(i + 1);
        assert(pre.drop_last() == g.mods@.take(i as int));
        assert(pre.last() == g.mods@[i as int]);
        check_release_bases(&g.mods[i].releases, &g.mods[i].name, path, occ, dir, out);
        i = i + 1;
    }
    assert(g.mods@.take(g.mods@.len() as int) == g.mods@);
    let ghost out1 = finding_views(out@);
    match &g.mod_of {
        Some(m) => {
            if !seen_in(occ, &m.base_sha1) {
                let mut message = owned("mod base sha1 ");
                push_str(&mut message, m.base_sha1.as_str());
                push_str(&mut message, " not found in the ");
                push_str(&mut message, dir);
                push_str(&mut message, " tree");
                let f = Finding::warning(path.as_str(), message);
                out.push(f);
                assert(finding_views(out@) =~= out1.push(f@));
            }
        },
        None => {},
    }
}

/// Every finding one platform tree earns, given its manifests as read.
pub fn validate_tree<P: Platform>(files: Vec<ManifestFile<P>>) -> (findings: Vec<Finding>)
    ensures
        finding_views(findings@) == tree_findings(files@),
{
    let ghost all = files@;
    let mut findings: Vec<Finding> = Vec::new();
    let mut games: Vec<(String, Game<P>)> = Vec::new();
    let mut rest = files;
    let ghost mut done: Seq<ManifestFile<P>> = Seq::empty();
    assert(rest@ =~= all.skip(0));
    assert(all.take(0) =~= Seq::<ManifestFile<P>>::empty());
    assert(finding_views(findings@) =~= Seq::<FindingView>::empty());
    assert(game_views(games@) =~= Seq::<(Seq<char>, Game<P>)>::empty());
    while rest.len() > 0
        invariant
            rest@.len() <= all.len(),
            done == all.take(all.len() - rest@.len()),
            rest@ == all.skip(all.len() - rest@.len()),
            finding_views(findings@) == files_findings(done),
            game_views(games@) == parsed_games(done),
        decreases rest@.len(),
    {
        let ghost n = all.len() - rest@.len();
        let f = rest.remove(0);
        proof {
            assert(f == all[n]);
            assert(all.take(n + 1).drop_last() == all.take(n));
            assert(all.take(n + 1).last() == f);
            assert(rest@ =~= all.skip(n + 1));
        }
        let ghost before = finding_views(findings@);
        match Slug::parse(f.dir_name.as_str()) {
            Ok(_) => {},
            Err(message) => {
                let g = Finding::error(f.path.as_str(), message);
                findings.push(g);
            },
        }
        let ghost slug_views = finding_views(findings@);
        assert(slug_views =~= before + if is_slug_text(f.dir_name@) {
            Seq::empty()
        } else {
            seq![error(f.path@, slug_error(f.dir_name@))]
        });
        let ManifestFile { path, dir_name, text, parsed } = f;
        match parsed {
            Err(e) => {
                let mut message = owned("parse error: ");
                push_str(&mut message, e.as_str());
                let g = Finding::error(path.as_str(), message);
                findings.push(g);
                assert(finding_views(findings@) =~= slug_views.push(g@));
            },
            Ok((game, canonical)) => {
                match &canonical {
                    Ok(c) => {
                        if !str_eq(c.as_str(), text.as_str()) {
                            let g = Finding::error(
                                path.as_str(),
                                owned("not canonically formatted (run `gamedb fmt`)"),
                            );
                            findings.push(g);
                            assert(finding_views(findings@) =~= slug_views.push(g@));
                        }
                    },
                    Err(e) => {
                        let mut message = owned("serialize error: ");
                        push_str(&mut message, e.as_str());
                        let g = Finding::error(path.as_str(), message);
                        findings.push(g);
                        assert(finding_views(findings@) =~= slug_views.push(g@));
                    },
                }
                let ghost gb = games@;
                games.push((path, game));
                assert(game_views(games@) =~= game_views(gb).push((f.path@, f.parsed->Ok_0.0)));
            },
        }
        proof {
            done = done.push(f);
            assert(done == all.take(n + 1));
        }
    }
    assert(all.take(all.len() as int) == all);
    let occ = check_games(&games, &mut findings);
    let dir = P::dir();
    let mut i: usize = 0;
    let ghost mid = finding_views(findings@);
    assert(game_views(games@).take(0) =~= Seq::<(Seq<char>, Game<P>)>::empty());
    assert(finding_views(findings@) =~= mid + Seq::<FindingView>::empty());
    while i < games.len()
        invariant
            i <= games@.len(),
            occ_view(occ@) == games_occurrences(game_views(games@)),
            dir@ == P::spec_dir(),
            finding_views(findings@) == mid + games_unresolved(
                game_views(games@).take(i as int),
                occ_view(occ@),
                dir@,
            ),
        decreases games@.len() - i,
    {
        let ghost pre = game_views(games@).take(i + 1);
        assert(pre.drop_last() == game_views(games@).take(i as int));
        assert(pre.last() == (games@[i as int].0@, games@[i as int].1));
        check_bases(&games[i].1, &games[i].0, &occ, dir, &mut findings);
        i = i + 1;
    }
    assert(game_views(games@).take(games@.len() as int) == game_views(games@));
    findings
}


/// Validate every platform tree: the Game Boy, Game Boy Color, SG-1000 and
/// VCS trees' findings, in platform order.
pub fn validate(
    gb: Vec<ManifestFile<GameBoy>>,
    gbc: Vec<ManifestFile<GameBoyColor>>,
    sg1000: Vec<ManifestFile<Sg1000>>,
    vcs: Vec<ManifestFile<Vcs>>,
) -> (findings: Vec<Finding>)
    ensures
        finding_views(findings@) == tree_findings(gb@) + tree_findings(gbc@) + tree_findings(sg1000@)
            + tree_findings(vcs@),
{
    let mut findings = validate_tree(gb);
    let ghost a = findings@;
    let mut more = validate_tree(gbc);
    let ghost b = more@;
    findings.append(&mut more);
    let ghost ab = findings@;
    assert(ab == a + b);
    assert(finding_views(ab) =~= finding_views(a) + finding_views(b));
    let mut sg = validate_tree(sg1000);
    let ghost c = sg@;
    findings.append(&mut sg);
    let ghost abc = findings@;
    assert(abc == ab + c);
    assert(finding_views(abc) =~= finding_views(ab) + finding_views(c));
    let mut last = validate_tree(vcs);
    let ghost d = last@;
    findings.append(&mut last);
    assert(findings@ == abc + d);
    assert(finding_views(findings@) =~= finding_views(abc) + finding_views(d));
    findings
}

/// A manifest as `fmt` reads it: its text, and either the parser's error or
/// the result of re-serializing the parsed game canonically.
pub struct FormatFile {
    pub path: String,
    pub text: String,
    pub formatted: Result<Result<String, String>, String>,
}

#[derive(Debug)]
pub struct FormatReport {
    /// Manifests rewritten in canonical formatting.
    pub rewritten: Vec<String>,
    pub errors: Vec<Finding>,
}

/// The manifests `fmt` rewrites, with the text each gets, and the files it
/// reports and leaves untouched.
pub open spec fn format_outcome(fs: Seq<FormatFile>) -> (Seq<(Seq<char>, Seq<char>)>, Seq<FindingView>)
    decreases fs.len(),
{
    if fs.len() == 0 {
        (Seq::empty(), Seq::empty())
    } else {
        let (writes, errors) = format_outcome(fs.drop_last());
        let f = fs.last();
        match f.formatted {
            Ok(Ok(canonical)) => if canonical@ != f.text@ {
                (writes.push((f.path@, canonical@)), errors)
            } else {
                (writes, errors)
            },
            Ok(Err(e)) => (writes, errors.push(error(f.path@, "serialize error: "@ + e@))),
            Err(e) => (writes, errors.push(error(f.path@, "parse error: "@ + e@))),
        }
    }
}

pub open spec fn pair_views(v: Seq<(String, String)>) -> Seq<(Seq<char>, Seq<char>)> {
    v.map_values(|p: (String, String)| (p.0@, p.1@))
}

/// Plans the rewrite of every manifest in canonical formatting: the report,
/// and each manifest to rewrite with its canonical text. Files that fail to
/// parse or serialize are reported and left untouched.
pub fn format_all(files: Vec<FormatFile>) -> (r: (FormatReport, Vec<(String, String)>))
    ensures
        pair_views(r.1@) == format_outcome(files@).0,
        finding_views(r.0.errors@) == format_outcome(files@).1,
        r.0.rewritten@.len() == r.1@.len(),
        forall|i: int| 0 <= i < r.1@.len() ==> #[trigger] r.0.rewritten@[i]@ == r.1@[i].0@,
{
    let mut report = FormatReport { rewritten: Vec::new(), errors: Vec::new() };
    let mut writes: Vec<(String, String)> = Vec::new();
    let mut i: usize = 0;
    assert(files@.take(0) =~= Seq::<FormatFile>::empty());
    assert(pair_views(writes@) =~= Seq::<(Seq<char>, Seq<char>)>::empty());
    assert(finding_views(report.errors@) =~= Seq::<FindingView>::empty());
    while i < files.len()
        invariant
            i <= files@.len(),
            pair_views(writes@) == format_outcome(files@.take(i as int)).0,
            finding_views(report.errors@) == format_outcome(files@.take(i as int)).1,
            report.rewritten@.len() == writes@.len(),
            forall|k: int| 0 <= k < writes@.len() ==> #[trigger] report.rewritten@[k]@ == writes@[k].0@,
        decreases files@.len() - i,
    {
        let ghost pre = files@.take(i + 1);
        assert(pre.drop_last() == files@.take(i as int));
        assert(pre.last() == files@[i as int]);
        let f = &files[i];
        match &f.formatted {
            Ok(Ok(canonical)) => {
                if !str_eq(canonical.as_str(), f.text.as_str()) {
                    let ghost wb = writes@;
                    writes.push((owned(f.path.as_str()), owned(canonical.as_str())));
                    report.rewritten.push(owned(f.path.as_str()));
                    assert(pair_views(writes@) =~= pair_views(wb).push((f.path@, canonical@)));
                }
            },
            Ok(Err(e)) => {
                let mut message = owned("serialize error: ");
                push_str(&mut message, e.as_str());
                let g = Finding::error(f.path.as_str(), message);
                let ghost eb = report.errors@;
                report.errors.push(g);
                assert(finding_views(report.errors@) =~= finding_views(eb).push(g@));
            },
            Err(e) => {
                let mut message = owned("parse error: ");
                push_str(&mut message, e.as_str());
                let g = Finding::error(f.path.as_str(), message);
                let ghost eb = report.errors@;
                report.errors.push(g);
                assert(finding_views(report.errors@) =~= finding_views(eb).push(g@));
            },
        }
        i = i + 1;
    }
    assert(files@.take(files@.len() as int) == files@);
    (report, writes)
}

/// Formatting settles a manifest: once its text is the canonical text that
/// `fmt` writes, validation finds no formatting drift in it — only a bad
/// directory name can still be reported.
pub proof fn lemma_formatted_is_canonical<P: Platform>(f: ManifestFile<P>)
    requires
        f.parsed matches Ok((_, Ok(canonical))) && canonical@ == f.text@,
    ensures
        file_findings(f) == if is_slug_text(f.dir_name@) {
            Seq::<FindingView>::empty()
        } else {
            seq![error(f.path@, slug_error(f.dir_name@))]
        },
{
    assert(file_findings(f) =~= (if is_slug_text(f.dir_name@) {
        Seq::<FindingView>::empty()
    } else {
        seq![error(f.path@, slug_error(f.dir_name@))]
    }) + Seq::<FindingView>::empty());
}


/// Every duplicate finding's message starts with `d` ("duplicate sha1 ...").
proof fn lemma_duplicate_messages(arts: Seq<Artifact>, path: Seq<char>, occ: Seq<Occurrence>)
    ensures
        forall|k: int|
            0 <= k < artifact_findings(arts, path, occ).len() ==> (#[trigger] artifact_findings(arts, path, occ)[k]).2.len()
                > 0 && artifact_findings(arts, path, occ)[k].2[0] == 'd',
    decreases arts.len(),
{
    reveal_strlit("duplicate sha1 ");
    if arts.len() > 0 {
        lemma_duplicate_messages(arts.drop_last(), path, occ);
        let pre = artifact_findings(arts.drop_last(), path, occ);
        let all = artifact_findings(arts, path, occ);
        assert forall|k: int| 0 <= k < all.len() implies (#[trigger] all[k]).2.len() > 0 && all[k].2[0] == 'd' by {
            if k < pre.len() {
                assert(all[k] == pre[k]);
            } else {
                let seen = occ + artifact_occurrences(arts.drop_last(), path);
                let first = last_holder(seen, arts.last().sha1@)->Some_0;
                assert(all[k].2 == duplicate_message(arts.last().sha1@, first));
                assert(duplicate_message(arts.last().sha1@, first)[0] == "duplicate sha1 "@[0]);
            }
        }
    }
}

proof fn lemma_mod_release_messages<P: Platform>(rs: Seq<ModRelease<P>>, path: Seq<char>, occ: Seq<Occurrence>)
    ensures
        forall|k: int|
            0 <= k < mod_release_findings(rs, path, occ).len() ==> (#[trigger] mod_release_findings(rs, path, occ)[k]).2.len()
                > 0 && mod_release_findings(rs, path, occ)[k].2[0] == 'd',
    decreases rs.len(),
{
    if rs.len() > 0 {
        lemma_mod_release_messages(rs.drop_last(), path, occ);
        let more = occ + mod_release_occurrences(rs.drop_last(), path);
        lemma_duplicate_messages(rs.last().artifacts@, path, more);
        let a = mod_release_findings(rs.drop_last(), path, occ);
        let b = artifact_findings(rs.last().artifacts@, path, more);
        let all = mod_release_findings(rs, path, occ);
        assert(all == a + b);
        assert forall|k: int| 0 <= k < all.len() implies (#[trigger] all[k]).2.len() > 0 && all[k].2[0] == 'd' by {
            if k < a.len() {
                assert(all[k] == a[k]);
            } else {
                assert(all[k] == b[k - a.len()]);
            }
        }
    }
}

proof fn lemma_mods_messages<P: Platform>(ms: Seq<Mod<P>>, path: Seq<char>, occ: Seq<Occurrence>)
    ensures
        forall|k: int|
            0 <= k < mods_findings(ms, path, occ).len() ==> (#[trigger] mods_findings(ms, path, occ)[k]).2.len() > 0
                && mods_findings(ms, path, occ)[k].2[0] == 'd',
    decreases ms.len(),
{
    if ms.len() > 0 {
        lemma_mods_messages(ms.drop_last(), path, occ);
        let more = occ + mods_occurrences(ms.drop_last(), path);
        lemma_mod_release_messages(ms.last().releases@, path, more);
        let a = mods_findings(ms.drop_last(), path, occ);
        let b = mod_release_findings(ms.last().releases@, path, more);
        let all = mods_findings(ms, path, occ);
        assert(all == a + b);
        assert forall|k: int| 0 <= k < all.len() implies (#[trigger] all[k]).2.len() > 0 && all[k].2[0] == 'd' by {
            if k < a.len() {
                assert(all[k] == a[k]);
            } else {
                assert(all[k] == b[k - a.len()]);
            }
        }
    }
}

/// With a located game, a release's findings are duplicates only.
proof fn lemma_located_release_messages<P: Platform>(rs: Seq<Release<P>>, path: Seq<char>, occ: Seq<Occurrence>)
    ensures
        forall|k: int|
            0 <= k < release_findings(rs, path, true, occ).len() ==> (#[trigger] release_findings(
                rs,
                path,
                true,
                occ,
            )[k]).2.len() > 0 && release_findings(rs, path, true, occ)[k].2[0] == 'd',
    decreases rs.len(),
{
    if rs.len() > 0 {
        lemma_located_release_messages(rs.drop_last(), path, occ);
        let more = occ + release_occurrences(rs.drop_last(), path);
        lemma_duplicate_messages(rs.last().artifacts@, path, more);
        let a = release_findings(rs.drop_last(), path, true, occ);
        let b = artifact_findings(rs.last().artifacts@, path, more);
        let all = release_findings(rs, path, true, occ);
        assert(all =~= a + Seq::<FindingView>::empty() + b);
        assert forall|k: int| 0 <= k < all.len() implies (#[trigger] all[k]).2.len() > 0 && all[k].2[0] == 'd' by {
            if k < a.len() {
                assert(all[k] == a[k]);
            } else {
                assert(all[k] == b[k - a.len()]);
            }
        }
    }
}

/// A game with a link that says where to get it (a download, a download
/// page, or a store) earns no "no artifacts" error, however many of its
/// releases list no dump.
pub proof fn lemma_linked_games_need_no_dumps<P: Platform>(g: Game<P>, path: Seq<char>, occ: Seq<Occurrence>, i: int)
    requires
        0 <= i < g.links@.len(),
        g.links@[i].link_type == LinkType::Download || g.links@[i].link_type == LinkType::DownloadPage
            || g.links@[i].link_type == LinkType::Store,
    ensures
        forall|k: int|
            0 <= k < game_findings(g, path, occ).len() ==> (#[trigger] game_findings(g, path, occ)[k]).2
                != "release has no artifacts and the game has no download link"@,
{
    reveal_strlit("release has no artifacts and the game has no download link");
    reveal_strlit("game has no releases");
    assert(locatable(g));
    lemma_located_release_messages(g.releases@, path, occ);
    let more = occ + release_occurrences(g.releases@, path);
    lemma_mods_messages(g.mods@, path, more);
    let e = if g.releases@.len() == 0 {
        seq![error(path, "game has no releases"@)]
    } else {
        Seq::empty()
    };
    let a = release_findings(g.releases@, path, true, occ);
    let b = mods_findings(g.mods@, path, more);
    let all = game_findings(g, path, occ);
    assert(all == e + a + b);
    assert forall|k: int| 0 <= k < all.len() implies (#[trigger] all[k]).2
        != "release has no artifacts and the game has no download link"@ by {
        let m = "release has no artifacts and the game has no download link"@;
        assert(m[0] == 'r');
        if k < e.len() {
            assert(all[k] == e[k]);
            assert("game has no releases"@[0] == 'g');
        } else if k < e.len() + a.len() {
            assert(all[k] == a[k - e.len()]);
        } else {
            assert(all[k] == b[k - e.len() - a.len()]);
        }
    }
}

proof fn lemma_unlocated_release_reported<P: Platform>(rs: Seq<Release<P>>, path: Seq<char>, occ: Seq<Occurrence>, r: int)
    requires
        0 <= r < rs.len(),
        rs[r].artifacts@.len() == 0,
    ensures
        release_findings(rs, path, false, occ).contains(
            error(path, "release has no artifacts and the game has no download link"@),
        ),
    decreases rs.len(),
{
    let m = error(path, "release has no artifacts and the game has no download link"@);
    let a = release_findings(rs.drop_last(), path, false, occ);
    let more = occ + release_occurrences(rs.drop_last(), path);
    let b = artifact_findings(rs.last().artifacts@, path, more);
    let all = release_findings(rs, path, false, occ);
    if r < rs.len() - 1 {
        lemma_unlocated_release_reported(rs.drop_last(), path, occ, r);
        let j = choose|j: int| 0 <= j < a.len() && a[j] == m;
        let missing = if rs.last().artifacts@.len() == 0 {
            seq![m]
        } else {
            Seq::empty()
        };
        assert(all == a + missing + b);
        assert(all[j] == a[j]);
    } else {
        assert(all == a + seq![m] + b);
        assert(all[a.len() as int] == m);
    }
}

/// A game with no download, download-page or store link earns a "no
/// artifacts" error for a release that lists no dump.
pub proof fn lemma_unlinked_dumpless_release_reported<P: Platform>(
    g: Game<P>,
    path: Seq<char>,
    occ: Seq<Occurrence>,
    r: int,
)
    requires
        forall|i: int|
            0 <= i < g.links@.len() ==> #[trigger] g.links@[i].link_type != LinkType::Download
                && g.links@[i].link_type != LinkType::DownloadPage && g.links@[i].link_type != LinkType::Store,
        0 <= r < g.releases@.len(),
        g.releases@[r].artifacts@.len() == 0,
    ensures
        game_findings(g, path, occ).contains(
            error(path, "release has no artifacts and the game has no download link"@),
        ),
{
    assert(!locatable(g));
    lemma_unlocated_release_reported(g.releases@, path, occ, r);
    let m = error(path, "release has no artifacts and the game has no download link"@);
    let a = release_findings(g.releases@, path, false, occ);
    let j = choose|j: int| 0 <= j < a.len() && a[j] == m;
    let e = if g.releases@.len() == 0 {
        seq![error(path, "game has no releases"@)]
    } else {
        Seq::empty()
    };
    let b = mods_findings(g.mods@, path, occ + release_occurrences(g.releases@, path));
    let all = game_findings(g, path, occ);
    assert(all == e + a + b);
    assert(all[e.len() + j] == m);
}
} // verus!
