//! Title cleanup: status, kind and licence qualifiers that survived inside
//! game titles move into their structured fields.
use vstd::prelude::*;

use crate::flags::{Flag, FlagFile, FlagKind, lemma_next_flag_id, next_flag_id};
use crate::game::{Game, GameKind, Release, ReleaseStatus};
use crate::load::{Entry, Tree};
use crate::platform::Platform;
use crate::report::{Report, added, added_all, total_items, lemma_add_counts_one, distinct_headings};
use crate::text::{collation_form, normalized_title};
use crate::strings::{count_equal, count_text, debug_quoted, debug_str, owned, push_str, str_eq, views,
    chars_of, is_ascii_digit, is_digit, lemma_rfind, matches_at, occurs_at, rfind, rfind_from, rfind_in, slice_of,
    starts_with, string_from, trim_end, trimmed_end,
};

verus! {

broadcast use vstd::string::group_string_axioms;

/// What a trailing title qualifier states.
#[derive(Clone, Copy, PartialEq, Eq, Structural, Debug)]
pub enum TitleQualifier {
    /// A release status: "(Prototype)", "(WIP)", "(Beta 2)".
    Status(ReleaseStatus),
    /// "(Demo)": the work is a demo.
    Demo,
    /// "(PD)": public domain, which the schema does not record.
    PublicDomain,
}

/// The trailing " (…)" chunk of a title, when present: the title before it
/// and the text inside the brackets.
pub open spec fn split_trailing(t: Seq<char>) -> Option<(Seq<char>, Seq<char>)> {
    if t.len() > 0 && t.last() == ')' {
        let stripped = t.drop_last();
        match rfind(stripped, " ("@) {
            Some(at) => Some((t.take(at), stripped.subrange(at + 2, stripped.len() as int))),
            None => None,
        }
    } else {
        None
    }
}

pub open spec fn beta_rest(c: Seq<char>) -> bool {
    forall|i: int| 4 <= i < c.len() ==> #[trigger] c[i] == ' ' || is_digit(c[i])
}

/// What a bracketed chunk states, if it is a qualifier this cleanup moves.
pub open spec fn classify(c: Seq<char>) -> Option<TitleQualifier> {
    if c == "Prototype"@ || c == "Proto"@ {
        Some(TitleQualifier::Status(ReleaseStatus::Prototype))
    } else if c == "WIP"@ {
        Some(TitleQualifier::Status(ReleaseStatus::WorkInProgress))
    } else if c == "Demo"@ {
        Some(TitleQualifier::Demo)
    } else if c == "PD"@ {
        Some(TitleQualifier::PublicDomain)
    } else if starts_with(c, "Beta"@) && beta_rest(c) {
        Some(TitleQualifier::Status(ReleaseStatus::Beta))
    } else if starts_with(c, "Prototype "@) || starts_with(c, "Proto "@) {
        Some(TitleQualifier::Status(ReleaseStatus::Prototype))
    } else {
        None
    }
}

/// A title with its trailing qualifiers moved out: the clean title, and each
/// qualifier with the (right-trimmed) title it left behind, outermost first.
pub open spec fn stripped(t: Seq<char>) -> (Seq<char>, Seq<(TitleQualifier, Seq<char>)>)
    decreases t.len(),
{
    match split_trailing(t) {
        Some((base, chunk)) => match classify(chunk) {
            Some(q) => {
                let b = trim_end(base);
                if b.len() < t.len() {
                    let (clean, rest) = stripped(b);
                    (clean, seq![(q, b)] + rest)
                } else {
                    (t, Seq::empty())
                }
            },
            None => (t, Seq::empty()),
        },
        None => (t, Seq::empty()),
    }
}

/// The last ` (` of `t (w` is the one put before `w`, when `w` opens no bracket.
proof fn lemma_rfind_opening(t: Seq<char>, w: Seq<char>, at: int)
    requires
        forall|i: int| 0 <= i < w.len() ==> #[trigger] w[i] != '(',
        t.len() <= at <= t.len() + 2 + w.len(),
    ensures
        rfind_from(t + " ("@ + w, " ("@, at) == Some(t.len() as int),
    decreases at,
{
    reveal_strlit(" (");
    let s = t + " ("@ + w;
    if at == t.len() {
        assert(s.subrange(at, at + 2) =~= " ("@);
    } else {
        if at + 2 <= s.len() {
            assert(s[at + 1] == w[at + 1 - t.len() - 2]);
            assert(s.subrange(at, at + 2)[1] == s[at + 1]);
        }
        assert(!occurs_at(s, " ("@, at));
        lemma_rfind_opening(t, w, at - 1);
    }
}

/// A title with a status, demo or public-domain tag at its end loses the tag
/// to the cleanup: the title left is the text before the tag, right-trimmed
/// and cleaned in turn, and the tag's meaning comes first among what was
/// moved.
pub proof fn lemma_trailing_tag_moves(t: Seq<char>, w: Seq<char>, q: TitleQualifier)
    requires
        (w == "Prototype"@ && q == TitleQualifier::Status(ReleaseStatus::Prototype)) || (w == "Proto"@ && q
            == TitleQualifier::Status(ReleaseStatus::Prototype)) || (w == "WIP"@ && q == TitleQualifier::Status(
            ReleaseStatus::WorkInProgress,
        )) || (w == "Beta"@ && q == TitleQualifier::Status(ReleaseStatus::Beta)) || (w == "Demo"@ && q
            == TitleQualifier::Demo) || (w == "PD"@ && q == TitleQualifier::PublicDomain),
    ensures
        stripped(t + " ("@ + w + ")"@) == (stripped(trim_end(t)).0, seq![(q, trim_end(t))] + stripped(
            trim_end(t),
        ).1),
{
    reveal_strlit(" (");
    reveal_strlit(")");
    reveal_strlit("Prototype");
    reveal_strlit("Proto");
    reveal_strlit("WIP");
    reveal_strlit("Beta");
    reveal_strlit("Demo");
    reveal_strlit("PD");
    reveal_strlit("Prototype ");
    reveal_strlit("Proto ");
    let title = t + " ("@ + w + ")"@;
    let s = t + " ("@ + w;
    assert(title.drop_last() =~= s);
    assert(title.last() == ')');
    assert forall|i: int| 0 <= i < w.len() implies #[trigger] w[i] != '(' by {}
    lemma_rfind_opening(t, w, s.len() as int);
    assert(title.take(t.len() as int) =~= t);
    assert(s.subrange(t.len() as int + 2, s.len() as int) =~= w);
    assert(split_trailing(title) == Some((t, w)));
    if w == "Beta"@ {
        assert(w.take(4) =~= "Beta"@);
        assert(starts_with(w, "Beta"@));
        assert("Beta"@[0] == 'B' && "Demo"@[0] == 'D');
        assert(w != "Prototype"@ && w != "Proto"@ && w != "WIP"@ && w != "Demo"@ && w != "PD"@);
    }
    assert(classify(w) == Some(q));
    lemma_trim_end_len(t);
}

proof fn lemma_trim_end_len(s: Seq<char>)
    ensures
        trim_end(s).len() <= s.len(),
    decreases s.len(),
{
    if s.len() > 0 {
        lemma_trim_end_len(s.drop_last());
    }
}

/// The trailing " (…)" chunk of a title, when present.
pub fn split_trailing_chunk(title: &Vec<char>) -> (r: Option<(Vec<char>, Vec<char>)>)
    ensures
        match split_trailing(title@) {
            Some((base, chunk)) => r matches Some(p) && p.0@ == base && p.1@ == chunk,
            None => r is None,
        },
{
    let n = title.len();
    if n == 0 || title[n - 1] != ')' {
        return None;
    }
    let stripped = slice_of(title, 0, n - 1);
    assert(stripped@ == title@.drop_last());
    let mut pat: Vec<char> = Vec::new();
    pat.push(' ');
    pat.push('(');
    proof {
        reveal_strlit(" (");
        assert(pat@ == " ("@);
    }
    proof {
        lemma_rfind(stripped@, pat@);
    }
    match rfind_in(&stripped, &pat) {
        Some(at) => {
            let base = slice_of(title, 0, at);
            let chunk = slice_of(&stripped, at + 2, stripped.len());
            assert(base@ == title@.take(at as int));
            Some((base, chunk))
        },
        None => None,
    }
}

fn is_text(v: &Vec<char>, s: &str) -> (b: bool)
    ensures
        b == (v@ == s@),
{
    let w = chars_of(s);
    if w.len() != v.len() {
        return false;
    }
    let m = matches_at(v, &w, 0);
    assert(v@.subrange(0, w@.len() as int) == v@);
    m
}

fn has_prefix(v: &Vec<char>, s: &str) -> (b: bool)
    ensures
        b == starts_with(v@, s@),
{
    let w = chars_of(s);
    let r = matches_at(v, &w, 0);
    assert(r == occurs_at(v@, w@, 0));
    assert(r ==> v@.take(w@.len() as int) == v@.subrange(0, w@.len() as int));
    r
}

/// What a bracketed chunk states, if it is a qualifier this cleanup moves.
pub fn classify_chunk(c: &Vec<char>) -> (r: Option<TitleQualifier>)
    ensures
        r == classify(c@),
{
    if is_text(c, "Prototype") || is_text(c, "Proto") {
        return Some(TitleQualifier::Status(ReleaseStatus::Prototype));
    }
    if is_text(c, "WIP") {
        return Some(TitleQualifier::Status(ReleaseStatus::WorkInProgress));
    }
    if is_text(c, "Demo") {
        return Some(TitleQualifier::Demo);
    }
    if is_text(c, "PD") {
        return Some(TitleQualifier::PublicDomain);
    }
    if has_prefix(c, "Beta") {
        proof {
            reveal_strlit("Beta");
        }
        let mut i: usize = 4;
        let mut rest_ok = true;
        while i < c.len()
            invariant
                4 <= i <= c@.len(),
                rest_ok == forall|j: int| 4 <= j < i ==> #[trigger] c@[j] == ' ' || is_digit(c@[j]),
            decreases c@.len() - i,
        {
            rest_ok = rest_ok && (c[i] == ' ' || is_ascii_digit(c[i]));
            i = i + 1;
        }
        if rest_ok {
            return Some(TitleQualifier::Status(ReleaseStatus::Beta));
        }
    }
    if has_prefix(c, "Prototype ") || has_prefix(c, "Proto ") {
        return Some(TitleQualifier::Status(ReleaseStatus::Prototype));
    }
    None
}

pub open spec fn qualifier_views(v: Seq<(TitleQualifier, Vec<char>)>) -> Seq<(TitleQualifier, Seq<char>)> {
    v.map_values(|p: (TitleQualifier, Vec<char>)| (p.0, p.1@))
}

/// Moves the trailing qualifiers out of a title: the clean title, and each
/// qualifier with the title it left behind, outermost first.
pub fn strip_qualifiers(title: &str) -> (r: (String, Vec<(TitleQualifier, Vec<char>)>))
    ensures
        r.0@ == stripped(title@).0,
        qualifier_views(r.1@) == stripped(title@).1,
{
    let mut cur = chars_of(title);
    let mut done: Vec<(TitleQualifier, Vec<char>)> = Vec::new();
    assert(qualifier_views(done@) =~= Seq::<(TitleQualifier, Seq<char>)>::empty());
    loop
        invariant
            stripped(title@).0 == stripped(cur@).0,
            stripped(title@).1 == qualifier_views(done@) + stripped(cur@).1,
        ensures
            stripped(cur@).0 == cur@,
            stripped(cur@).1.len() == 0,
        decreases cur@.len(),
    {
        let split = split_trailing_chunk(&cur);
        match split {
            Some((base, chunk)) => {
                match classify_chunk(&chunk) {
                    Some(q) => {
                        let b = trimmed_end(&base);
                        proof {
                            lemma_trim_end_len(base@);
                            lemma_rfind(cur@.drop_last(), " ("@);
                            assert(base@.len() < cur@.len());
                        }
                        let ghost old_done = done@;
                        done.push((q, b.clone()));
                        assert(qualifier_views(done@) =~= qualifier_views(old_done).push((q, b@)));
                        assert(stripped(cur@).1 == seq![(q, b@)] + stripped(b@).1);
                        assert(qualifier_views(done@) + stripped(b@).1 =~= qualifier_views(old_done)
                            + stripped(cur@).1);
                        cur = b;
                    },
                    None => {
                        assert(classify(chunk@) is None);
                        break;
                    },
                }
            },
            None => {
                assert(split_trailing(cur@) is None);
                break;
            },
        }
    }
    assert(qualifier_views(done@) + Seq::<(TitleQualifier, Seq<char>)>::empty() =~= qualifier_views(done@));
    (string_from(cur.as_slice()), done)
}


#[derive(Default)]
pub struct Stats {
    /// Titles that lost at least one qualifier.
    pub cleaned: usize,
    /// Releases whose status a qualifier set.
    pub statuses: usize,
    /// Demo flags raised for a human to confirm.
    pub demo_flags: usize,
}

/// The status the first status qualifier states, outermost first.
pub open spec fn first_status(qs: Seq<(TitleQualifier, Seq<char>)>) -> Option<ReleaseStatus>
    decreases qs.len(),
{
    if qs.len() == 0 {
        None
    } else {
        let rest = first_status(qs.drop_last());
        match rest {
            Some(s) => Some(s),
            None => match qs.last().0 {
                TitleQualifier::Status(s) => Some(s),
                _ => None,
            },
        }
    }
}

/// A release's status after the cleanup: a stated status replaces `Released`.
pub open spec fn new_status(old: ReleaseStatus, stated: Option<ReleaseStatus>) -> ReleaseStatus {
    match stated {
        Some(s) => if old == ReleaseStatus::Released {
            s
        } else {
            old
        },
        None => old,
    }
}

pub open spec fn count_released<P: Platform>(rs: Seq<Release<P>>) -> nat
    decreases rs.len(),
{
    if rs.len() == 0 {
        0
    } else {
        count_released(rs.drop_last()) + if rs.last().status == ReleaseStatus::Released {
            1nat
        } else {
            0nat
        }
    }
}

/// The notes of the demo flags a title's qualifiers raise, in order.
pub open spec fn demo_notes(qs: Seq<(TitleQualifier, Seq<char>)>) -> Seq<Seq<char>>
    decreases qs.len(),
{
    if qs.len() == 0 {
        Seq::empty()
    } else {
        demo_notes(qs.drop_last()) + if qs.last().0 == TitleQualifier::Demo {
            seq![demo_note(qs.last().1)]
        } else {
            Seq::empty()
        }
    }
}

pub open spec fn demo_note(base: Seq<char>) -> Seq<char> {
    "\""@ + base + "\" was titled \"(Demo)\" — kind set to Demo; verify it is not a demoscene production"@
}

pub open spec fn has_demo(qs: Seq<(TitleQualifier, Seq<char>)>) -> bool {
    exists|i: int| 0 <= i < qs.len() && #[trigger] qs[i].0 == TitleQualifier::Demo
}

/// `g1` is `g0` with its title cleaned, its kind and release statuses set
/// from the qualifiers, and nothing else changed.
pub open spec fn cleaned_game<P: Platform>(g0: Game<P>, g1: Game<P>) -> bool {
    let (title, qs) = stripped(g0.title@);
    &&& g1.title@ == title
    &&& g1.kind == if has_demo(qs) { GameKind::Demo } else { g0.kind }
    &&& g1.releases@.len() == g0.releases@.len()
    &&& forall|k: int|
        0 <= k < g0.releases@.len() ==> #[trigger] g1.releases@[k] == (Release {
            status: new_status(g0.releases@[k].status, first_status(qs)),
            ..g0.releases@[k]
        })
    &&& g1.developer == g0.developer && g1.description == g0.description && g1.tags == g0.tags
    &&& g1.links == g0.links && g1.covers == g0.covers && g1.screenshots == g0.screenshots
    &&& g1.mod_of == g0.mod_of && g1.mods == g0.mods && g1.curated == g0.curated
    &&& g1.adult == g0.adult && g1.recommended_by == g0.recommended_by
}

/// `f` is the flag with this id, subject and note that a Demo qualifier raises.
pub open spec fn is_demo_flag(f: Flag, id: int, subject: Seq<char>, note: Seq<char>) -> bool {
    &&& f.id == id
    &&& f.kind == FlagKind::Custom
    &&& views(f.subject@) == seq![subject]
    &&& f.note@ == note
}

/// The (subject, note) of each demo flag a title's qualifiers raise.
pub open spec fn demo_items(subject: Seq<char>, notes: Seq<Seq<char>>) -> Seq<(Seq<char>, Seq<char>)> {
    notes.map_values(|n: Seq<char>| (subject, n))
}

/// `after` is `before` followed by one demo flag per (subject, note), numbered on.
pub open spec fn raised(before: Seq<Flag>, after: Seq<Flag>, items: Seq<(Seq<char>, Seq<char>)>) -> bool {
    &&& after.len() == before.len() + items.len()
    &&& after.take(before.len() as int) == before
    &&& forall|j: int|
        0 <= j < items.len() ==> is_demo_flag(
            #[trigger] after[before.len() + j],
            next_flag_id(before) + j,
            items[j].0,
            items[j].1,
        )
    &&& next_flag_id(after) == next_flag_id(before) + items.len()
}

proof fn lemma_raised_chain(a: Seq<Flag>, b: Seq<Flag>, c: Seq<Flag>, x: Seq<(Seq<char>, Seq<char>)>, y: Seq<(Seq<char>, Seq<char>)>)
    requires
        raised(a, b, x),
        raised(b, c, y),
    ensures
        raised(a, c, x + y),
{
    assert(c.take(a.len() as int) == a) by {
        assert(c.take(a.len() as int) =~= b.take(a.len() as int));
    }
    assert forall|j: int| 0 <= j < (x + y).len() implies is_demo_flag(
        #[trigger] c[a.len() + j],
        next_flag_id(a) + j,
        (x + y)[j].0,
        (x + y)[j].1,
    ) by {
        if j < x.len() {
            assert(c[a.len() + j] == c.take(b.len() as int)[a.len() + j]);
            assert(b[a.len() + j] == c[a.len() + j]);
        } else {
            let k = j - x.len();
            assert(c[b.len() + k] == c[a.len() + j]);
        }
    }
}

proof fn lemma_demo_notes_prefix(qs: Seq<(TitleQualifier, Seq<char>)>, i: int)
    requires
        0 <= i <= qs.len(),
    ensures
        demo_notes(qs.take(i)).len() <= demo_notes(qs).len(),
    decreases qs.len() - i,
{
    if i < qs.len() {
        lemma_demo_notes_prefix(qs, i + 1);
        assert(qs.take(i + 1).drop_last() == qs.take(i));
    } else {
        assert(qs.take(i) == qs);
    }
}

proof fn lemma_count_released<P: Platform>(rs: Seq<Release<P>>)
    ensures
        count_released(rs) <= rs.len(),
    decreases rs.len(),
{
    if rs.len() > 0 {
        lemma_count_released(rs.drop_last());
    }
}

proof fn lemma_first_status_not_released(t: Seq<char>)
    ensures
        first_status(stripped(t).1) != Some(ReleaseStatus::Released),
        forall|i: int| 0 <= i < stripped(t).1.len() ==> #[trigger] stripped(t).1[i].0 != TitleQualifier::Status(ReleaseStatus::Released),
    decreases t.len(),
{
    match split_trailing(t) {
        Some((base, chunk)) => match classify(chunk) {
            Some(q) => {
                let b = trim_end(base);
                if b.len() < t.len() {
                    lemma_first_status_not_released(b);
                    let qs = stripped(t).1;
                    assert(qs == seq![(q, b)] + stripped(b).1);
                    lemma_first_status_no_released(qs);
                }
            },
            None => {},
        },
        None => {},
    }
}

proof fn lemma_first_status_no_released(qs: Seq<(TitleQualifier, Seq<char>)>)
    requires
        forall|i: int| 0 <= i < qs.len() ==> #[trigger] qs[i].0 != TitleQualifier::Status(ReleaseStatus::Released),
    ensures
        first_status(qs) != Some(ReleaseStatus::Released),
    decreases qs.len(),
{
    if qs.len() > 0 {
        assert(qs.drop_last().len() < qs.len());
        assert forall|i: int| 0 <= i < qs.drop_last().len() implies #[trigger] qs.drop_last()[i].0 != TitleQualifier::Status(ReleaseStatus::Released) by {
            assert(qs.drop_last()[i] == qs[i]);
        }
        lemma_first_status_no_released(qs.drop_last());
        assert(qs.last() == qs[qs.len() - 1]);
    }
}

/// Sets a stated status on every release still marked `Released`; returns
/// how many it set.
fn set_statuses<P: Platform>(releases: &mut Vec<Release<P>>, status: ReleaseStatus) -> (n: usize)
    ensures
        final(releases)@.len() == old(releases)@.len(),
        n == count_released(old(releases)@),
        forall|k: int|
            0 <= k < old(releases)@.len() ==> #[trigger] final(releases)@[k] == (Release {
                status: new_status(old(releases)@[k].status, Some(status)),
                ..old(releases)@[k]
            }),
{
    let ghost orig = releases@;
    let total = releases.len();
    let mut rest: Vec<Release<P>> = Vec::new();
    std::mem::swap(&mut rest, releases);
    let mut n: usize = 0;
    assert(rest@ =~= orig.skip(0));
    assert(orig.take(0) =~= Seq::<Release<P>>::empty());
    while rest.len() > 0
        invariant
            rest@.len() <= orig.len(),
            total == orig.len(),
            rest@ == orig.skip(orig.len() - rest@.len()),
            releases@.len() == orig.len() - rest@.len(),
            n == count_released(orig.take(orig.len() - rest@.len())),
            n <= releases@.len(),
            forall|k: int|
                0 <= k < releases@.len() ==> #[trigger] releases@[k] == (Release {
                    status: new_status(orig[k].status, Some(status)),
                    ..orig[k]
                }),
        decreases rest@.len(),
    {
        let ghost i = orig.len() - rest@.len();
        let mut r = rest.remove(0);
        assert(r == orig[i]);
        assert(orig.take(i + 1).drop_last() == orig.take(i));
        assert(orig.take(i + 1).last() == orig[i]);
        assert(rest@ =~= orig.skip(i + 1));
        if r.status == ReleaseStatus::Released {
            r.status = status;
            n = n + 1;
        }
        releases.push(r);
    }
    assert(orig.take(orig.len() as int) == orig);
    n
}

/// The demo flag a "(Demo)" qualifier raises for a game.
fn demo_flag(id: u32, subject: String, base: &Vec<char>) -> (f: Flag)
    ensures
        is_demo_flag(f, id as int, subject@, demo_note(base@)),
{
    let mut note = owned("\"");
    let b = string_from(base.as_slice());
    push_str(&mut note, b.as_str());
    push_str(&mut note, "\" was titled \"(Demo)\" — kind set to Demo; verify it is not a demoscene production");
    let mut subjects: Vec<String> = Vec::new();
    subjects.push(subject);
    assert(views(subjects@) =~= seq![subject@]);
    Flag { id, kind: FlagKind::Custom, subject: subjects, note }
}

/// Moves a game's title qualifiers into its fields, raising a demo flag for
/// each "(Demo)". Returns whether the title changed.
pub fn clean_game<P: Platform>(
    game: &mut Game<P>,
    subject: &str,
    flags: &mut FlagFile,
    stats: &mut Stats,
) -> (changed: bool)
    requires
        next_flag_id(old(flags).flags@) + demo_notes(stripped(old(game).title@).1).len() < u32::MAX,
        old(stats).statuses + old(game).releases@.len() <= usize::MAX,
        old(stats).demo_flags + stripped(old(game).title@).1.len() <= usize::MAX,
    ensures
        changed == (stripped(old(game).title@).1.len() > 0),
        cleaned_game(*old(game), *final(game)),
        raised(old(flags).flags@, final(flags).flags@, demo_items(subject@, demo_notes(stripped(old(game).title@).1))),
        final(stats).cleaned == old(stats).cleaned,
        final(stats).statuses == old(stats).statuses + if first_status(stripped(old(game).title@).1) is Some {
            count_released(old(game).releases@)
        } else {
            0
        },
        final(stats).demo_flags == old(stats).demo_flags + demo_notes(stripped(old(game).title@).1).len(),
{
    let ghost g0 = *game;
    let ghost f0 = flags.flags@;
    let ghost qs_all = stripped(g0.title@).1;
    let (title, quals) = strip_qualifiers(game.title.as_str());
    proof {
        lemma_first_status_not_released(g0.title@);
        lemma_count_released(g0.releases@);
        assert(f0.take(f0.len() as int) == f0);
        assert(demo_items(subject@, demo_notes(qs_all.take(0))) =~= Seq::<(Seq<char>, Seq<char>)>::empty());
    }
    let mut i: usize = 0;
    let mut status_set = false;
    assert(qualifier_views(quals@).take(0) =~= Seq::<(TitleQualifier, Seq<char>)>::empty());
    while i < quals.len()
        invariant
            i <= quals@.len(),
            qualifier_views(quals@) == qs_all,
            qs_all == stripped(g0.title@).1,
            forall|j: int| 0 <= j < qs_all.len() ==> #[trigger] qs_all[j].0 != TitleQualifier::Status(ReleaseStatus::Released),
            status_set == first_status(qs_all.take(i as int)) is Some,
            game.title == g0.title,
            game.kind == if has_demo(qs_all.take(i as int)) { GameKind::Demo } else { g0.kind },
            game.releases@.len() == g0.releases@.len(),
            forall|k: int|
                0 <= k < g0.releases@.len() ==> #[trigger] game.releases@[k] == (Release {
                    status: new_status(g0.releases@[k].status, first_status(qs_all.take(i as int))),
                    ..g0.releases@[k]
                }),
            game.developer == g0.developer && game.description == g0.description && game.tags == g0.tags,
            game.links == g0.links && game.covers == g0.covers && game.screenshots == g0.screenshots,
            game.mod_of == g0.mod_of && game.mods == g0.mods && game.curated == g0.curated,
            game.adult == g0.adult && game.recommended_by == g0.recommended_by,
            raised(f0, flags.flags@, demo_items(subject@, demo_notes(qs_all.take(i as int)))),
            next_flag_id(f0) + demo_notes(qs_all).len() < u32::MAX,
            demo_notes(qs_all.take(i as int)).len() <= i,
            stats.cleaned == old(stats).cleaned,
            stats.statuses == old(stats).statuses + if status_set { count_released(g0.releases@) } else { 0 },
            count_released(g0.releases@) <= g0.releases@.len(),
            old(stats).statuses + g0.releases@.len() <= usize::MAX,
            stats.demo_flags == old(stats).demo_flags + demo_notes(qs_all.take(i as int)).len(),
            old(stats).demo_flags + qs_all.len() <= usize::MAX,
        decreases quals@.len() - i,
    {
        let ghost pre = qs_all.take(i + 1);
        assert(pre.drop_last() == qs_all.take(i as int));
        assert(pre.last() == qs_all[i as int]);
        assert(qs_all[i as int] == (quals@[i as int].0, quals@[i as int].1@));
        match quals[i].0 {
            TitleQualifier::Status(s) => {
                if !status_set {
                    assert(game.releases@ =~= g0.releases@);
                    let n = set_statuses(&mut game.releases, s);
                    stats.statuses = stats.statuses + n;
                    status_set = true;
                } else {
                    assert forall|k: int| 0 <= k < g0.releases@.len() implies
                        new_status(g0.releases@[k].status, first_status(pre))
                        == new_status(g0.releases@[k].status, first_status(qs_all.take(i as int))) by {}
                }
            },
            TitleQualifier::Demo => {
                game.kind = GameKind::Demo;
                proof {
                    lemma_next_flag_id(flags.flags@);
                    lemma_demo_notes_prefix(qs_all, i + 1);
                    assert(demo_notes(pre).len() == demo_notes(qs_all.take(i as int)).len() + 1);
                }
                let id = flags.next_id();
                let f = demo_flag(id, owned(subject), &quals[i].1);
                let ghost fb = flags.flags@;
                flags.flags.push(f);
                stats.demo_flags = stats.demo_flags + 1;
                proof {
                    assert(flags.flags@.drop_last() == fb);
                    let notes = demo_notes(pre);
                    assert(notes == demo_notes(qs_all.take(i as int)).push(demo_note(qs_all[i as int].1)));
                    assert(flags.flags@.take(f0.len() as int) == f0) by {
                        assert(fb.take(f0.len() as int) == f0);
                    }
                    let items = demo_items(subject@, notes);
                    assert(items =~= demo_items(subject@, demo_notes(qs_all.take(i as int))).push((subject@, demo_note(qs_all[i as int].1))));
                    assert forall|j: int| 0 <= j < items.len() implies is_demo_flag(
                        #[trigger] flags.flags@[f0.len() + j],
                        next_flag_id(f0) + j,
                        items[j].0,
                        items[j].1,
                    ) by {
                        if j < notes.len() - 1 {
                            assert(flags.flags@[f0.len() + j] == fb[f0.len() + j]);
                        }
                    }
                    assert(has_demo(pre)) by {
                        assert(pre[i as int].0 == TitleQualifier::Demo);
                    }
                }
            },
            TitleQualifier::PublicDomain => {
                proof {
                    assert(has_demo(pre) == has_demo(qs_all.take(i as int))) by {
                        if has_demo(pre) {
                            let w = choose|w: int| 0 <= w < pre.len() && #[trigger] pre[w].0 == TitleQualifier::Demo;
                            assert(w < i);
                            assert(qs_all.take(i as int)[w] == pre[w]);
                        }
                    }
                }
            },
        }
        proof {
            if quals@[i as int].0 != TitleQualifier::Demo {
                assert(demo_notes(pre) == demo_notes(qs_all.take(i as int)));
            }
            if !(quals@[i as int].0 is Demo) {
                assert(has_demo(pre) == has_demo(qs_all.take(i as int))) by {
                    if has_demo(pre) {
                        let w = choose|w: int| 0 <= w < pre.len() && #[trigger] pre[w].0 == TitleQualifier::Demo;
                        assert(qs_all.take(i as int)[w] == pre[w]);
                    }
                }
            }
        }
        i = i + 1;
    }
    assert(qs_all.take(qs_all.len() as int) == qs_all);
    let changed = quals.len() > 0;
    game.title = title;
    changed
}


pub open spec fn entry_subject(dir: Seq<char>, slug: Seq<char>) -> Seq<char> {
    dir + "/"@ + slug
}

pub open spec fn title_forms<P: Platform>(es: Seq<Entry<P>>) -> Seq<Seq<char>> {
    es.map_values(|e: Entry<P>| collation_form(e.game.title@))
}

pub open spec fn changed<P: Platform>(e: Entry<P>) -> bool {
    stripped(e.game.title@).1.len() > 0
}

/// The entries whose titles carried qualifiers, in order.
pub open spec fn changed_entries<P: Platform>(es: Seq<Entry<P>>) -> Seq<Entry<P>>
    decreases es.len(),
{
    if es.len() == 0 {
        Seq::empty()
    } else {
        changed_entries(es.drop_last()) + if changed(es.last()) {
            seq![es.last()]
        } else {
            Seq::empty()
        }
    }
}

/// Every demo flag the tree raises, entry by entry.
pub open spec fn tree_demo_items<P: Platform>(es: Seq<Entry<P>>, dir: Seq<char>) -> Seq<(Seq<char>, Seq<char>)>
    decreases es.len(),
{
    if es.len() == 0 {
        Seq::empty()
    } else {
        tree_demo_items(es.drop_last(), dir) + demo_items(
            entry_subject(dir, es.last().slug@),
            demo_notes(stripped(es.last().game.title@).1),
        )
    }
}

/// Report items for cleaned titles that now collate like another title of
/// the tree (as the tree stood before the cleanup).
pub open spec fn tree_collisions<P: Platform>(es: Seq<Entry<P>>, forms: Seq<Seq<char>>, dir: Seq<char>) -> Seq<Seq<char>>
    decreases es.len(),
{
    if es.len() == 0 {
        Seq::empty()
    } else {
        let e = es.last();
        let title = stripped(e.game.title@).0;
        tree_collisions(es.drop_last(), forms, dir) + if changed(e) && count_equal(forms, collation_form(title)) > 1 {
            seq![entry_subject(dir, e.slug@) + ": "@ + debug_str(title)]
        } else {
            Seq::empty()
        }
    }
}

pub open spec fn tree_statuses<P: Platform>(es: Seq<Entry<P>>) -> nat
    decreases es.len(),
{
    if es.len() == 0 {
        0
    } else {
        let g = es.last().game;
        tree_statuses(es.drop_last()) + if first_status(stripped(g.title@).1) is Some {
            count_released(g.releases@)
        } else {
            0
        }
    }
}

pub open spec fn tree_demos<P: Platform>(es: Seq<Entry<P>>) -> nat
    decreases es.len(),
{
    if es.len() == 0 {
        0
    } else {
        tree_demos(es.drop_last()) + demo_notes(stripped(es.last().game.title@).1).len()
    }
}

/// A bound on everything the cleanup can count in a tree.
pub open spec fn tree_size<P: Platform>(es: Seq<Entry<P>>) -> nat
    decreases es.len(),
{
    if es.len() == 0 {
        0
    } else {
        tree_size(es.drop_last()) + 1 + es.last().game.releases@.len() + stripped(es.last().game.title@).1.len()
    }
}

proof fn lemma_demo_notes_len(qs: Seq<(TitleQualifier, Seq<char>)>)
    ensures
        demo_notes(qs).len() <= qs.len(),
    decreases qs.len(),
{
    if qs.len() > 0 {
        lemma_demo_notes_len(qs.drop_last());
    }
}

proof fn lemma_tree_counts<P: Platform>(es: Seq<Entry<P>>, forms: Seq<Seq<char>>, dir: Seq<char>)
    ensures
        tree_statuses(es) <= tree_size(es),
        tree_demos(es) <= tree_size(es),
        changed_entries(es).len() <= tree_size(es),
        tree_collisions(es, forms, dir).len() <= tree_size(es),
        tree_demos(es) == tree_demo_items(es, dir).len(),
    decreases es.len(),
{
    if es.len() > 0 {
        lemma_tree_counts(es.drop_last(), forms, dir);
        let g = es.last().game;
        lemma_count_released(g.releases@);
        lemma_demo_notes_len(stripped(g.title@).1);
    }
}

proof fn lemma_tree_size_prefix<P: Platform>(es: Seq<Entry<P>>, k: int)
    requires
        0 <= k <= es.len(),
    ensures
        tree_size(es.take(k)) <= tree_size(es),
        k < es.len() ==> tree_size(es.take(k)) + 1 <= tree_size(es.take(k + 1)),
    decreases es.len() - k,
{
    if k < es.len() {
        lemma_tree_size_prefix(es, k + 1);
        assert(es.take(k + 1).drop_last() == es.take(k));
    } else {
        assert(es.take(k) == es);
    }
}

/// Cleans every title of a tree: returns the games to write back, under their
/// slugs; raises demo flags, counts what it did, and reports cleaned titles
/// that now collide with another title of the tree.
#[verifier::spinoff_prover]
pub fn fix_tree<P: Platform>(
    tree: Tree<P>,
    report: &mut Report,
    stats: &mut Stats,
    flags: &mut FlagFile,
) -> (writes: Vec<(String, Game<P>)>)
    requires
        next_flag_id(old(flags).flags@) + tree_size(tree.games@) < u32::MAX,
        old(stats).cleaned + tree_size(tree.games@) <= usize::MAX,
        old(stats).statuses + tree_size(tree.games@) <= usize::MAX,
        old(stats).demo_flags + tree_size(tree.games@) <= usize::MAX,
        total_items(old(report)@) + tree_size(tree.games@) < usize::MAX,
    ensures
        writes@.len() == changed_entries(tree.games@).len(),
        forall|k: int|
            0 <= k < writes@.len() ==> #[trigger] writes@[k].0@ == changed_entries(tree.games@)[k].slug@
                && cleaned_game(changed_entries(tree.games@)[k].game, writes@[k].1),
        raised(old(flags).flags@, final(flags).flags@, tree_demo_items(tree.games@, P::spec_dir())),
        final(report)@ == added_all(
            old(report)@,
            "Cleaned title now collides (merge candidates)"@,
            tree_collisions(tree.games@, title_forms(tree.games@), P::spec_dir()),
        ),
        final(stats).cleaned == old(stats).cleaned + changed_entries(tree.games@).len(),
        final(stats).statuses == old(stats).statuses + tree_statuses(tree.games@),
        final(stats).demo_flags == old(stats).demo_flags + tree_demos(tree.games@),
{
    let ghost all = tree.games@;
    let ghost forms = title_forms(all);
    let dir = P::dir();
    let mut all_titles: Vec<String> = Vec::new();
    let mut j: usize = 0;
    while j < tree.games.len()
        invariant
            j <= all.len(),
            all == tree.games@,
            views(all_titles@) == forms.take(j as int),
            forms == title_forms(all),
        decreases all.len() - j,
    {
        let form = normalized_title(tree.games[j].game.title.as_str());
        let ghost before = all_titles@;
        all_titles.push(form);
        assert(views(all_titles@) =~= views(before).push(form@));
        assert(forms.len() == all.len());
        assert(forms[j as int] == collation_form(all[j as int].game.title@));
        assert(forms.take(j + 1) =~= forms.take(j as int).push(collation_form(all[j as int].game.title@)));
        j = j + 1;
    }
    assert(forms.take(all.len() as int) == forms);
    let Tree { games } = tree;
    let mut rest = games;
    let mut writes: Vec<(String, Game<P>)> = Vec::new();
    let ghost f0 = flags.flags@;
    proof {
        use_type_invariant(&*report);
    }
    let ghost r0 = report@;
    let ghost s0 = *stats;
    assert(rest@ =~= all.skip(0));
    assert(all.take(0) =~= Seq::<Entry<P>>::empty());
    assert(f0.take(f0.len() as int) == f0);
    while rest.len() > 0
        invariant
            rest@.len() <= all.len(),
            rest@ == all.skip(all.len() - rest@.len()),
            views(all_titles@) == forms,
            forms == title_forms(all),
            dir@ == P::spec_dir(),
            writes@.len() == changed_entries(all.take(all.len() - rest@.len())).len(),
            forall|k: int|
                0 <= k < writes@.len() ==> #[trigger] writes@[k].0@ == changed_entries(all.take(all.len() - rest@.len()))[k].slug@
                    && cleaned_game(changed_entries(all.take(all.len() - rest@.len()))[k].game, writes@[k].1),
            raised(f0, flags.flags@, tree_demo_items(all.take(all.len() - rest@.len()), dir@)),
            report@ == added_all(r0, "Cleaned title now collides (merge candidates)"@, tree_collisions(all.take(all.len() - rest@.len()), forms, dir@)),
            distinct_headings(report@),
            total_items(report@) == total_items(r0) + tree_collisions(all.take(all.len() - rest@.len()), forms, dir@).len(),
            stats.cleaned == s0.cleaned + changed_entries(all.take(all.len() - rest@.len())).len(),
            stats.statuses == s0.statuses + tree_statuses(all.take(all.len() - rest@.len())),
            stats.demo_flags == s0.demo_flags + tree_demos(all.take(all.len() - rest@.len())),
            next_flag_id(f0) + tree_size(all) < u32::MAX,
            s0.cleaned + tree_size(all) <= usize::MAX,
            s0.statuses + tree_size(all) <= usize::MAX,
            s0.demo_flags + tree_size(all) <= usize::MAX,
            total_items(r0) + tree_size(all) < usize::MAX,
        decreases rest@.len(),
    {
        let ghost i = all.len() - rest@.len();
        let entry = rest.remove(0);
        proof {
            assert(entry == all[i]);
            assert(all.take(i + 1).drop_last() == all.take(i));
            assert(all.take(i + 1).last() == entry);
            assert(rest@ =~= all.skip(i + 1));
        }
        let Entry { slug, game } = entry;
        let mut game = game;
        let mut subject = owned(dir);
        push_str(&mut subject, "/");
        push_str(&mut subject, slug.as_str());
        let ghost g0 = game;
        let ghost qs = stripped(g0.title@).1;
        let ghost pre = all.take(i);
        let ghost post = all.take(i + 1);
        proof {
            lemma_tree_size_prefix(all, i);
            lemma_tree_size_prefix(all, i + 1);
            lemma_tree_counts(pre, forms, dir@);
            lemma_tree_counts(post, forms, dir@);
            assert(subject@ == entry_subject(dir@, slug@));
            assert(tree_demos(post) == tree_demos(pre) + demo_notes(qs).len());
            assert(tree_statuses(post) == tree_statuses(pre) + if first_status(qs) is Some {
                count_released(g0.releases@)
            } else {
                0
            });
        }
        let ghost fm = flags.flags@;
        let was_changed = clean_game(&mut game, subject.as_str(), flags, stats);
        proof {
            lemma_raised_chain(f0, fm, flags.flags@, tree_demo_items(pre, dir@), demo_items(subject@, demo_notes(qs)));
            assert(tree_demo_items(post, dir@) == tree_demo_items(pre, dir@) + demo_items(subject@, demo_notes(qs)));
        }
        let ghost wb = writes@;
        if was_changed {
            stats.cleaned = stats.cleaned + 1;
            let form = normalized_title(game.title.as_str());
            let twins = count_text(&all_titles, &form);
            if twins > 1 {
                let mut item = subject.clone();
                push_str(&mut item, ": ");
                let quoted = debug_quoted(game.title.as_str());
                push_str(&mut item, quoted.as_str());
                let ghost rb = report@;
                proof {
                    lemma_add_counts_one(rb, "Cleaned title now collides (merge candidates)"@, item@);
                    assert(tree_collisions(post, forms, dir@) == tree_collisions(pre, forms, dir@).push(item@));
                    assert(tree_collisions(post, forms, dir@).drop_last() == tree_collisions(pre, forms, dir@));
                    assert(tree_collisions(post, forms, dir@).last() == item@);
                }
                report.add("Cleaned title now collides (merge candidates)", item);
            } else {
                assert(tree_collisions(post, forms, dir@) == tree_collisions(pre, forms, dir@));
            }
            let key = owned(slug.as_str());
            let ghost g1 = game;
            assert(cleaned_game(g0, g1));
            writes.push((key, game));
            proof {
                assert(changed_entries(post) == changed_entries(pre).push(all[i]));
                assert forall|k: int| 0 <= k < writes@.len() implies #[trigger] writes@[k].0@ == changed_entries(post)[k].slug@
                    && cleaned_game(changed_entries(post)[k].game, writes@[k].1) by {
                    if k < wb.len() {
                        assert(writes@[k] == wb[k]);
                        assert(changed_entries(post)[k] == changed_entries(pre)[k]);
                    } else {
                        assert(k == wb.len());
                        assert(writes@[k] == (key, g1));
                        assert(changed_entries(post)[k] == all[i]);
                    }
                }
            }
        } else {
            proof {
                assert(changed_entries(post) == changed_entries(pre));
                assert(tree_collisions(post, forms, dir@) == tree_collisions(pre, forms, dir@));
            }
        }
    }
    assert(all.take(all.len() as int) == all);
    writes
}

/// Title cleanup is done in one pass: a cleaned title carries no qualifier
/// the cleanup would move, so cleaning it again changes nothing.
pub proof fn lemma_clean_title_is_fixed(t: Seq<char>)
    ensures
        stripped(stripped(t).0) == (stripped(t).0, Seq::<(TitleQualifier, Seq<char>)>::empty()),
    decreases t.len(),
{
    match split_trailing(t) {
        Some((base, chunk)) => match classify(chunk) {
            Some(q) => {
                let b = trim_end(base);
                if b.len() < t.len() {
                    lemma_clean_title_is_fixed(b);
                }
            },
            None => {},
        },
        None => {},
    }
}

} // verus!
