//! Collapsing per-variant VCS entries into games with releases: the rules
//! for a variant's title and for the game fields its variants must agree on.
use vstd::prelude::*;
use vstd::multiset::Multiset;

use crate::order::{insert_by, lemma_insert_at, lemma_sort_len, lemma_sort_members, sort_by};
use crate::fix_slugs::{lemma_token_set, lex_less, lex_lt, token_set, token_set_of};
use crate::game::{Artifact, Game, GameKind, Link, Release, ReleaseStatus};
use crate::ids::{ReleaseDate, Sha1};
use crate::legacy::LegacyManifest;
use crate::migrate_homebrew::{at_text, copy_link, date_note, hash_notes, legacy_date, legacy_hashes, link_view, opt_text};
use crate::game::{Language, LinkType};
use crate::platform::{BoardValue, Vcs, VcsHardware};
use crate::platform::TvStandard;
use crate::text::{collation_form, normalize_title};
use crate::report::{Report, added, note_views, push_note, total_items};
use crate::strings::{count_equal, chars_of, debug_quoted, debug_str, ends_with, owned, push_str, slice_of, str_eq, string_from, views};

verus! {

broadcast use vstd::string::group_string_axioms;

/// What a VCS migration counted.
#[derive(Clone, Copy, PartialEq, Eq, Structural, Debug)]
pub struct Stats {
    pub entries_before: usize,
    pub games_after: usize,
    pub releases: usize,
}

/// A variant's title without its " (WIP)" suffix, and whether it had one.
pub open spec fn wip_title(title: Seq<char>) -> (Seq<char>, bool) {
    if ends_with(title, " (WIP)"@) {
        (title.take(title.len() - 6), true)
    } else {
        (title, false)
    }
}

/// A variant's title without its " (WIP)" suffix, and whether it had one.
pub fn split_wip(title: &str) -> (r: (String, bool))
    ensures
        r.0@ == wip_title(title@).0,
        r.1 == wip_title(title@).1,
{
    let t = chars_of(title);
    let suffix = chars_of(" (WIP)");
    proof {
        reveal_strlit(" (WIP)");
    }
    let n = t.len();
    if n >= 6 && crate::strings::matches_at(&t, &suffix, n - 6) {
        assert(t@.subrange(n - 6, n as int) == suffix@);
        let head = slice_of(&t, 0, n - 6);
        assert(head@ == t@.take(t@.len() - 6));
        return (string_from(head.as_slice()), true);
    }
    (owned(title), false)
}

/// Each variant's value for a field, as text where it states one.
pub open spec fn opt_views(values: Seq<Option<String>>) -> Seq<Option<Seq<char>>> {
    values.map_values(|o: Option<String>| opt_text(o))
}

/// The values the variants state for a field, in order.
pub open spec fn stated(values: Seq<Option<Seq<char>>>) -> Seq<Seq<char>>
    decreases values.len(),
{
    if values.len() == 0 {
        Seq::empty()
    } else {
        stated(values.drop_last()) + match values.last() {
            Some(v) => seq![v],
            None => Seq::empty(),
        }
    }
}

/// The value a game takes for a field its variants state: none when no
/// variant states it, the value when they all agree, and none (reported)
/// when they differ.
pub open spec fn unified(values: Seq<Option<Seq<char>>>) -> Option<Seq<char>> {
    let distinct = token_set(stated(values));
    if distinct.len() == 1 {
        Some(distinct[0])
    } else {
        None
    }
}

/// The value its variants agree on for a field, and whether they differ.
fn unify_values(values: &Vec<Option<String>>) -> (r: (Option<String>, bool))
    ensures
        match unified(opt_views(values@)) {
            Some(v) => r.0 matches Some(s) && s@ == v,
            None => r.0 is None,
        },
        r.1 == (token_set(stated(opt_views(values@))).len() > 1),
{
    let mut present: Vec<String> = Vec::new();
    let mut i: usize = 0;
    assert(opt_views(values@).take(0) =~= Seq::<Option<Seq<char>>>::empty());
    assert(views(present@) =~= Seq::<Seq<char>>::empty());
    while i < values.len()
        invariant
            i <= values@.len(),
            views(present@) == stated(opt_views(values@).take(i as int)),
        decreases values@.len() - i,
    {
        assert(opt_views(values@).take(i + 1).drop_last() =~= opt_views(values@).take(i as int));
        assert(opt_views(values@).take(i + 1).last() == opt_text(values@[i as int]));
        let ghost before = views(present@);
        match &values[i] {
            Some(v) => {
                present.push(owned(v.as_str()));
                assert(views(present@) =~= before + seq![v@]);
            },
            None => {
                assert(views(present@) =~= before + Seq::<Seq<char>>::empty());
            },
        }
        i = i + 1;
    }
    assert(opt_views(values@).take(values@.len() as int) == opt_views(values@));
    let distinct = token_set_of(&present);
    if distinct.len() == 1 {
        (Some(owned(distinct[0].as_str())), false)
    } else {
        (None, distinct.len() > 1)
    }
}

/// The report line for a field the variants of `title` disagree on.
pub open spec fn conflict_line(title: Seq<char>, name: Seq<char>) -> Seq<char> {
    debug_str(title) + ": "@ + name + " differs across variants"@
}

fn conflict_text(title: &str, name: &str) -> (r: String)
    ensures
        r@ == conflict_line(title@, name@),
{
    let mut line = debug_quoted(title);
    push_str(&mut line, ": ");
    push_str(&mut line, name);
    push_str(&mut line, " differs across variants");
    line
}

/// Unifies a game field across its variants: `None` where no variant states
/// it, the value where they all agree; where they differ, the field is left
/// empty and the conflict reported.
pub fn unify_scalar(values: &Vec<Option<String>>, title: &str, name: &str, report: &mut Report) -> (r: Option<String>)
    requires
        total_items(old(report)@) < usize::MAX,
    ensures
        match unified(opt_views(values@)) {
            Some(v) => r matches Some(s) && s@ == v,
            None => r is None,
        },
        final(report)@ == if token_set(stated(opt_views(values@))).len() > 1 {
            added(old(report)@, "Conflicting game fields left empty"@, conflict_line(title@, name@))
        } else {
            old(report)@
        },
{
    let (value, conflict) = unify_values(values);
    if conflict {
        report.add("Conflicting game fields left empty", conflict_text(title, name));
    }
    value
}

/// A variant entry: its directory name and its manifest.
pub type Variant = (String, LegacyManifest);

/// Where a TV standard sorts: in the order of its `{:?}` text, `None`
/// first, then `Ntsc`, `Pal`, `PalM`.
pub open spec fn tv_rank(t: Option<TvStandard>) -> int {
    match t {
        None => 0,
        Some(TvStandard::Ntsc) => 1,
        Some(TvStandard::Pal) => 2,
        Some(TvStandard::PalM) => 3,
    }
}

pub open spec fn text_or_empty(o: Option<String>) -> Seq<char> {
    match o {
        Some(s) => s@,
        None => Seq::empty(),
    }
}

/// The order of a title's variants: released before work in progress, then
/// by TV standard, board, date and directory name.
pub open spec fn variant_before(a: Variant, b: Variant) -> bool {
    let wa = wip_title(a.1.title@).1;
    let wb = wip_title(b.1.title@).1;
    if wa != wb {
        !wa
    } else if tv_rank(a.1.tv_format) != tv_rank(b.1.tv_format) {
        tv_rank(a.1.tv_format) < tv_rank(b.1.tv_format)
    } else if text_or_empty(a.1.cart_type) != text_or_empty(b.1.cart_type) {
        lex_lt(text_or_empty(a.1.cart_type), text_or_empty(b.1.cart_type))
    } else if text_or_empty(a.1.date) != text_or_empty(b.1.date) {
        lex_lt(text_or_empty(a.1.date), text_or_empty(b.1.date))
    } else {
        lex_lt(a.0@, b.0@)
    }
}

/// The order of variants by index into `es`.
pub open spec fn variant_order(es: Seq<Variant>) -> spec_fn(int, int) -> bool {
    |a: int, b: int| variant_before(es[a], es[b])
}

/// Stable insertion: `x` goes after every variant it does not sort before.
pub open spec fn insert_variant(es: Seq<Variant>, sorted: Seq<int>, x: int) -> Seq<int> {
    insert_by(sorted, x, variant_order(es))
}

/// The variants at the given indices, stably sorted.
pub open spec fn sort_variants(es: Seq<Variant>, idx: Seq<int>) -> Seq<int> {
    sort_by(idx, variant_order(es))
}

fn tv_rank_of(t: Option<TvStandard>) -> (r: u8)
    ensures
        r == tv_rank(t),
{
    match t {
        None => 0,
        Some(TvStandard::Ntsc) => 1,
        Some(TvStandard::Pal) => 2,
        Some(TvStandard::PalM) => 3,
    }
}

fn text_chars(o: &Option<String>) -> (r: Vec<char>)
    ensures
        r@ == text_or_empty(*o),
{
    match o {
        Some(s) => chars_of(s.as_str()),
        None => Vec::new(),
    }
}

fn chars_equal(a: &Vec<char>, b: &Vec<char>) -> (r: bool)
    ensures
        r == (a@ == b@),
{
    if a.len() != b.len() {
        return false;
    }
    let mut i: usize = 0;
    while i < a.len()
        invariant
            a@.len() == b@.len(),
            i <= a@.len(),
            forall|j: int| 0 <= j < i ==> a@[j] == b@[j],
        decreases a@.len() - i,
    {
        if a[i] != b[i] {
            return false;
        }
        i = i + 1;
    }
    assert(a@ =~= b@);
    true
}

fn variant_less(a: &Variant, b: &Variant) -> (r: bool)
    ensures
        r == variant_before(*a, *b),
{
    let (_, wa) = split_wip(a.1.title.as_str());
    let (_, wb) = split_wip(b.1.title.as_str());
    if wa != wb {
        return !wa;
    }
    let ra = tv_rank_of(a.1.tv_format);
    let rb = tv_rank_of(b.1.tv_format);
    if ra != rb {
        return ra < rb;
    }
    let ca = text_chars(&a.1.cart_type);
    let cb = text_chars(&b.1.cart_type);
    if !chars_equal(&ca, &cb) {
        return lex_less(&ca, &cb);
    }
    let da = text_chars(&a.1.date);
    let db = text_chars(&b.1.date);
    if !chars_equal(&da, &db) {
        return lex_less(&da, &db);
    }
    let sa = chars_of(a.0.as_str());
    let sb = chars_of(b.0.as_str());
    lex_less(&sa, &sb)
}

/// Adds a variant to a stably sorted list of variant indices.
fn insert_sorted_variant(es: &Vec<Variant>, sorted: &mut Vec<usize>, x: usize)
    requires
        x < es@.len(),
        forall|j: int| 0 <= j < old(sorted)@.len() ==> old(sorted)@[j] < es@.len(),
    ensures
        final(sorted)@.map_values(|i: usize| i as int) == insert_variant(
            es@,
            old(sorted)@.map_values(|i: usize| i as int),
            x as int,
        ),
        forall|j: int| 0 <= j < final(sorted)@.len() ==> final(sorted)@[j] < es@.len(),
{
    let ghost s = sorted@.map_values(|i: usize| i as int);
    let mut p = sorted.len();
    while p > 0 && variant_less(&es[x], &es[sorted[p - 1]])
        invariant
            p <= sorted@.len(),
            s == sorted@.map_values(|i: usize| i as int),
            x < es@.len(),
            forall|j: int| 0 <= j < sorted@.len() ==> sorted@[j] < es@.len(),
            forall|j: int| p <= j < s.len() ==> variant_before(es@[x as int], #[trigger] es@[s[j]]),
        decreases p,
    {
        p = p - 1;
    }
    proof {
        lemma_insert_at(s, x as int, p as int, variant_order(es@));
    }
    sorted.insert(p, x);
    assert(sorted@.map_values(|i: usize| i as int) =~= s.take(p as int).push(x as int) + s.skip(p as int));
}

/// The title a variant belongs to: its own, less any " (WIP)".
pub open spec fn variant_title(v: Variant) -> Seq<char> {
    wip_title(v.1.title@).0
}

pub open spec fn titles_of(es: Seq<Variant>) -> Seq<Seq<char>> {
    es.map_values(|v: Variant| variant_title(v))
}

/// The titles the variants collapse into, in `BTreeMap` key order.
pub open spec fn group_titles(es: Seq<Variant>) -> Seq<Seq<char>> {
    token_set(titles_of(es))
}

/// The indices of the first `n` variants that belong to title `t`.
pub open spec fn members_upto(es: Seq<Variant>, t: Seq<char>, n: int) -> Seq<int>
    decreases n,
{
    if n <= 0 {
        Seq::empty()
    } else {
        members_upto(es, t, n - 1) + if variant_title(es[n - 1]) == t {
            seq![n - 1]
        } else {
            Seq::empty()
        }
    }
}

/// A title's variants, in the order its releases take.
pub open spec fn group_of(es: Seq<Variant>, t: Seq<char>) -> Seq<int> {
    sort_variants(es, members_upto(es, t, es.len() as int))
}

pub open spec fn as_ints(v: Seq<usize>) -> Seq<int> {
    v.map_values(|i: usize| i as int)
}

fn group_members(es: &Vec<Variant>, titles: &Vec<String>, t: &str) -> (r: Vec<usize>)
    requires
        views(titles@) == titles_of(es@),
    ensures
        as_ints(r@) == group_of(es@, t@),
        forall|j: int| 0 <= j < r@.len() ==> r@[j] < es@.len(),
{
    let mut sorted: Vec<usize> = Vec::new();
    let mut i: usize = 0;
    assert(as_ints(sorted@) =~= Seq::<int>::empty());
    while i < es.len()
        invariant
            i <= es@.len(),
            views(titles@) == titles_of(es@),
            as_ints(sorted@) == sort_variants(es@, members_upto(es@, t@, i as int)),
            forall|j: int| 0 <= j < sorted@.len() ==> sorted@[j] < es@.len(),
        decreases es@.len() - i,
    {
        assert(titles@.len() == views(titles@).len());
        assert(views(titles@)[i as int] == titles@[i as int]@);
        assert(titles_of(es@)[i as int] == variant_title(es@[i as int]));
        if str_eq(titles[i].as_str(), t) {
            let ghost before = members_upto(es@, t@, i as int);
            insert_sorted_variant(es, &mut sorted, i);
            assert(members_upto(es@, t@, i + 1) == before.push(i as int));
            assert(before.push(i as int).drop_last() == before);
        } else {
            assert(members_upto(es@, t@, i + 1) =~= members_upto(es@, t@, i as int));
        }
        i = i + 1;
    }
    sorted
}

/// The titles among `gts` whose collation form is `form`, in order.
pub open spec fn titles_with_form(gts: Seq<Seq<char>>, form: Seq<char>) -> Seq<Seq<char>>
    decreases gts.len(),
{
    if gts.len() == 0 {
        Seq::empty()
    } else {
        titles_with_form(gts.drop_last(), form) + if collation_form(gts.last()) == form {
            seq![gts.last()]
        } else {
            Seq::empty()
        }
    }
}

/// Quoted titles joined with " vs ".
pub open spec fn joined_vs(ts: Seq<Seq<char>>) -> Seq<char>
    decreases ts.len(),
{
    if ts.len() == 0 {
        Seq::empty()
    } else if ts.len() == 1 {
        debug_str(ts[0])
    } else {
        joined_vs(ts.drop_last()) + " vs "@ + debug_str(ts.last())
    }
}

pub open spec fn near_lines(gts: Seq<Seq<char>>, forms: Seq<Seq<char>>) -> Seq<Seq<char>>
    decreases forms.len(),
{
    if forms.len() == 0 {
        Seq::empty()
    } else {
        near_lines(gts, forms.drop_last()) + if titles_with_form(gts, forms.last()).len() > 1 {
            seq![joined_vs(titles_with_form(gts, forms.last()))]
        } else {
            Seq::empty()
        }
    }
}

/// Distinct titles that collate alike, one line per collation form that
/// more than one title shares, in the order of the forms.
pub open spec fn near_miss_lines(gts: Seq<Seq<char>>) -> Seq<Seq<char>> {
    near_lines(gts, token_set(gts.map_values(|t: Seq<char>| collation_form(t))))
}

fn join_vs(ts: &Vec<String>) -> (r: String)
    ensures
        r@ == joined_vs(views(ts@)),
{
    let mut out = String::new();
    let mut k: usize = 0;
    assert(views(ts@).take(0) =~= Seq::<Seq<char>>::empty());
    assert(out@ == joined_vs(Seq::<Seq<char>>::empty()));
    while k < ts.len()
        invariant
            k <= ts@.len(),
            out@ == joined_vs(views(ts@).take(k as int)),
        decreases ts@.len() - k,
    {
        let ghost pre = views(ts@).take(k + 1);
        assert(pre.drop_last() =~= views(ts@).take(k as int));
        assert(pre.last() == ts@[k as int]@);
        if k > 0 {
            push_str(&mut out, " vs ");
        } else {
            assert(pre =~= seq![ts@[0]@]);
        }
        let q = debug_quoted(ts[k].as_str());
        push_str(&mut out, q.as_str());
        k = k + 1;
    }
    assert(views(ts@).take(ts@.len() as int) == views(ts@));
    out
}

/// The near-miss report lines for the group titles.
fn near_misses(gts: &Vec<String>) -> (r: Vec<String>)
    ensures
        views(r@) == near_miss_lines(views(gts@)),
{
    let mut forms: Vec<String> = Vec::new();
    let mut i: usize = 0;
    while i < gts.len()
        invariant
            i <= gts@.len(),
            views(forms@) == views(gts@).take(i as int).map_values(|t: Seq<char>| collation_form(t)),
        decreases gts@.len() - i,
    {
        let ghost before = views(forms@);
        forms.push(normalize_title(gts[i].as_str()));
        assert(views(forms@) =~= before.push(collation_form(gts@[i as int]@)));
        assert(views(gts@).take(i + 1).map_values(|t: Seq<char>| collation_form(t)) =~= views(gts@).take(
            i as int,
        ).map_values(|t: Seq<char>| collation_form(t)).push(collation_form(gts@[i as int]@)));
        i = i + 1;
    }
    assert(views(gts@).take(gts@.len() as int) == views(gts@));
    assert(forms@.len() == views(forms@).len());
    let keys = token_set_of(&forms);
    let ghost ks = views(keys@);
    let mut lines: Vec<String> = Vec::new();
    let mut k: usize = 0;
    assert(ks.take(0) =~= Seq::<Seq<char>>::empty());
    assert(views(lines@) =~= Seq::<Seq<char>>::empty());
    while k < keys.len()
        invariant
            k <= keys@.len(),
            ks == views(keys@),
            forms@.len() == gts@.len(),
            views(forms@) == views(gts@).map_values(|t: Seq<char>| collation_form(t)),
            views(lines@) == near_lines(views(gts@), ks.take(k as int)),
        decreases keys@.len() - k,
    {
        let mut ts: Vec<String> = Vec::new();
        let mut j: usize = 0;
        assert(views(gts@).take(0) =~= Seq::<Seq<char>>::empty());
        assert(views(ts@) =~= Seq::<Seq<char>>::empty());
        while j < gts.len()
            invariant
                j <= gts@.len(),
                k < keys@.len(),
                forms@.len() == gts@.len(),
                views(forms@) == views(gts@).map_values(|t: Seq<char>| collation_form(t)),
                views(ts@) == titles_with_form(views(gts@).take(j as int), keys@[k as int]@),
            decreases gts@.len() - j,
        {
            let ghost pre = views(gts@).take(j + 1);
            assert(pre.drop_last() =~= views(gts@).take(j as int));
            assert(pre.last() == gts@[j as int]@);
            assert(views(forms@)[j as int] == forms@[j as int]@);
            assert(views(gts@)[j as int] == gts@[j as int]@);
            assert(forms@[j as int]@ == collation_form(gts@[j as int]@));
            let ghost before = views(ts@);
            if str_eq(forms[j].as_str(), keys[k].as_str()) {
                ts.push(owned(gts[j].as_str()));
                assert(views(ts@) =~= before.push(gts@[j as int]@));
            } else {
                assert(views(ts@) =~= before + Seq::<Seq<char>>::empty());
            }
            j = j + 1;
        }
        assert(views(gts@).take(gts@.len() as int) == views(gts@));
        let ghost pre = ks.take(k + 1);
        assert(pre.drop_last() =~= ks.take(k as int));
        assert(pre.last() == keys@[k as int]@);
        let ghost before = views(lines@);
        if ts.len() > 1 {
            lines.push(join_vs(&ts));
            assert(views(lines@) =~= before.push(joined_vs(views(ts@))));
        } else {
            assert(views(lines@) =~= before + Seq::<Seq<char>>::empty());
        }
        k = k + 1;
    }
    assert(ks.take(ks.len() as int) == ks);
    lines
}

/// What a variant's own release files: an unreadable date, each unreadable
/// hash, and a release left with no dump.
pub open spec fn release_notes(v: Variant) -> Seq<(Seq<char>, Seq<char>)> {
    date_note(v.0@, opt_text(v.1.date)) + hash_notes(v.0@, views(v.1.hashes@)) + if legacy_hashes(
        views(v.1.hashes@),
    ).len() == 0 {
        seq![("Releases with no artifacts and no sources"@, v.0@)]
    } else {
        Seq::empty()
    }
}

/// The release a variant becomes: its date where it reads, its publisher,
/// work in progress where its title said so, its TV standard and board,
/// and a dump for each hash that reads.
pub open spec fn is_variant_release(r: Release<Vcs>, v: Variant) -> bool {
    &&& r.title is None
    &&& r.label is None
    &&& r.regions@.len() == 0
    &&& match r.date {
        Some(d) => legacy_date(opt_text(v.1.date)) == Some(d@),
        None => legacy_date(opt_text(v.1.date)) is None,
    }
    &&& opt_text(r.publisher) == opt_text(v.1.publisher)
    &&& r.status == if wip_title(v.1.title@).1 {
        ReleaseStatus::WorkInProgress
    } else {
        ReleaseStatus::Released
    }
    &&& r.hardware.tv_format == v.1.tv_format
    &&& match r.hardware.cart_type {
        Some(b) => v.1.cart_type matches Some(c) && b.name@ == c@ && b.attributes@.len() == 0,
        None => v.1.cart_type is None,
    }
    &&& r.hardware.controllers@.len() == 0
    &&& r.artifacts@.map_values(|a: Artifact| a.sha1@) == legacy_hashes(views(v.1.hashes@))
    &&& forall|k: int|
        0 <= k < r.artifacts@.len() ==> (#[trigger] r.artifacts@[k]).label is None && r.artifacts@[k].defect is None
            && r.artifacts@[k].size is None
}

fn variant_release(v: &Variant, notes: &mut Vec<(String, String)>) -> (r: Release<Vcs>)
    ensures
        is_variant_release(r, *v),
        note_views(final(notes)@) == note_views(old(notes)@) + release_notes(*v),
{
    let ghost n0 = note_views(notes@);
    let slug = v.0.as_str();
    let m = &v.1;
    let date: Option<ReleaseDate> = match &m.date {
        None => None,
        Some(d) => match ReleaseDate::parse(d.as_str()) {
            Ok(date) => Some(date),
            Err(e) => {
                push_note(notes, "Unparseable dates dropped", at_text(slug, e.as_str()));
                None
            },
        },
    };
    assert(note_views(notes@) =~= n0 + date_note(slug@, opt_text(m.date)));
    let ghost n1 = note_views(notes@);
    let mut artifacts: Vec<Artifact> = Vec::new();
    let mut i: usize = 0;
    assert(views(m.hashes@).take(0) =~= Seq::<Seq<char>>::empty());
    assert(artifacts@.map_values(|a: Artifact| a.sha1@) =~= Seq::<Seq<char>>::empty());
    assert(note_views(notes@) =~= n1 + hash_notes(slug@, Seq::<Seq<char>>::empty()));
    while i < m.hashes.len()
        invariant
            i <= m.hashes@.len(),
            artifacts@.map_values(|a: Artifact| a.sha1@) == legacy_hashes(views(m.hashes@).take(i as int)),
            forall|k: int|
                0 <= k < artifacts@.len() ==> (#[trigger] artifacts@[k]).label is None && artifacts@[k].defect is None
                    && artifacts@[k].size is None,
            note_views(notes@) == n1 + hash_notes(slug@, views(m.hashes@).take(i as int)),
        decreases m.hashes@.len() - i,
    {
        let ghost pre = views(m.hashes@).take(i + 1);
        assert(pre.drop_last() =~= views(m.hashes@).take(i as int));
        assert(pre.last() == m.hashes@[i as int]@);
        let ghost before = note_views(notes@);
        match Sha1::parse(m.hashes[i].as_str()) {
            Ok(sha1) => {
                let ghost o = artifacts@.map_values(|a: Artifact| a.sha1@);
                artifacts.push(Artifact { sha1, label: None, defect: None, size: None });
                assert(artifacts@.map_values(|a: Artifact| a.sha1@) =~= o.push(
                    crate::strings::lower_seq(m.hashes@[i as int]@),
                ));
                assert(hash_notes(slug@, pre) =~= hash_notes(slug@, views(m.hashes@).take(i as int)));
            },
            Err(e) => {
                push_note(notes, "Invalid hashes dropped", at_text(slug, e.as_str()));
                assert(hash_notes(slug@, pre) =~= hash_notes(slug@, views(m.hashes@).take(i as int)).push(
                    ("Invalid hashes dropped"@, slug@ + ": "@ + crate::ids::sha1_error(m.hashes@[i as int]@)),
                ));
                assert(note_views(notes@) =~= n1 + hash_notes(slug@, pre));
                assert(artifacts@.map_values(|a: Artifact| a.sha1@) =~= legacy_hashes(pre));
            },
        }
        i = i + 1;
    }
    assert(views(m.hashes@).take(m.hashes@.len() as int) == views(m.hashes@));
    let ghost n2 = note_views(notes@);
    if artifacts.len() == 0 {
        push_note(notes, "Releases with no artifacts and no sources", owned(slug));
    }
    assert(note_views(notes@) =~= n0 + release_notes(*v));
    let (_, wip) = split_wip(m.title.as_str());
    let cart_type = match &m.cart_type {
        Some(c) => Some(BoardValue { name: owned(c.as_str()), attributes: Vec::new() }),
        None => None,
    };
    let publisher = match &m.publisher {
        Some(p) => Some(owned(p.as_str())),
        None => None,
    };
    Release {
        title: None,
        label: None,
        regions: Vec::new(),
        date,
        publisher,
        status: if wip {
            ReleaseStatus::WorkInProgress
        } else {
            ReleaseStatus::Released
        },
        hardware: VcsHardware { tv_format: m.tv_format, cart_type, controllers: Vec::new() },
        artifacts,
    }
}

/// Two variants built for the same hardware: both released or both work in
/// progress, on the same TV standard and board.
pub open spec fn same_hardware(a: Variant, b: Variant) -> bool {
    &&& wip_title(a.1.title@).1 == wip_title(b.1.title@).1
    &&& a.1.tv_format == b.1.tv_format
    &&& opt_text(a.1.cart_type) == opt_text(b.1.cart_type)
}

/// Among the first `j` of a title's variants, the latest built for the same
/// hardware as its `k`-th.
pub open spec fn last_same(es: Seq<Variant>, ms: Seq<int>, k: int, j: int) -> Option<int>
    decreases j,
{
    if j <= 0 {
        None
    } else if same_hardware(es[ms[j - 1]], es[ms[k]]) {
        Some(j - 1)
    } else {
        last_same(es, ms, k, j - 1)
    }
}

pub open spec fn dup_note(t: Seq<char>, es: Seq<Variant>, ms: Seq<int>, k: int) -> Seq<(Seq<char>, Seq<char>)> {
    match last_same(es, ms, k, k) {
        Some(j) => seq![
            ("Same title with identical hardware"@, debug_str(t) + ": "@ + es[ms[j]].0@ + " and "@ + es[ms[k]].0@),
        ],
        None => Seq::empty(),
    }
}

/// What the first `n` variants of title `t` file, variant by variant.
pub open spec fn member_notes(t: Seq<char>, es: Seq<Variant>, ms: Seq<int>, n: int) -> Seq<(Seq<char>, Seq<char>)>
    decreases n,
{
    if n <= 0 {
        Seq::empty()
    } else {
        member_notes(t, es, ms, n - 1) + dup_note(t, es, ms, n - 1) + release_notes(es[ms[n - 1]])
    }
}

pub open spec fn shot_notes(es: Seq<Variant>, ms: Seq<int>, n: int) -> Seq<(Seq<char>, Seq<char>)>
    decreases n,
{
    if n <= 0 {
        Seq::empty()
    } else {
        shot_notes(es, ms, n - 1) + if es[ms[n - 1]].1.screenshots@.len() > 0 {
            seq![("Screenshot filenames dropped (no URL derivable)"@, es[ms[n - 1]].0@)]
        } else {
            Seq::empty()
        }
    }
}

pub open spec fn conflict_note(t: Seq<char>, name: Seq<char>, values: Seq<Option<Seq<char>>>) -> Seq<(Seq<char>, Seq<char>)> {
    if token_set(stated(values)).len() > 1 {
        seq![("Conflicting game fields left empty"@, conflict_line(t, name))]
    } else {
        Seq::empty()
    }
}

pub open spec fn developers(es: Seq<Variant>, ms: Seq<int>) -> Seq<Option<Seq<char>>> {
    ms.map_values(|i: int| opt_text(es[i].1.developer))
}

pub open spec fn descriptions(es: Seq<Variant>, ms: Seq<int>) -> Seq<Option<Seq<char>>> {
    ms.map_values(|i: int| opt_text(es[i].1.description))
}

/// What collapsing title `t` files: each variant's lines in release order,
/// then the fields its variants disagree on, then the screenshots dropped.
pub open spec fn group_notes(t: Seq<char>, es: Seq<Variant>, ms: Seq<int>) -> Seq<(Seq<char>, Seq<char>)> {
    member_notes(t, es, ms, ms.len() as int) + conflict_note(t, "developer"@, developers(es, ms)) + conflict_note(
        t,
        "description"@,
        descriptions(es, ms),
    ) + shot_notes(es, ms, ms.len() as int)
}

pub open spec fn all_tags(es: Seq<Variant>, ms: Seq<int>, n: int) -> Seq<Seq<char>>
    decreases n,
{
    if n <= 0 {
        Seq::empty()
    } else {
        all_tags(es, ms, n - 1) + views(es[ms[n - 1]].1.tags@)
    }
}

pub open spec fn all_links(es: Seq<Variant>, ms: Seq<int>, n: int) -> Seq<(Seq<char>, Seq<char>, LinkType, Seq<Language>)>
    decreases n,
{
    if n <= 0 {
        Seq::empty()
    } else {
        all_links(es, ms, n - 1) + es[ms[n - 1]].1.links@.map_values(|l: Link| link_view(l))
    }
}

/// Each link once, where it first occurs.
pub open spec fn first_occurrences(
    s: Seq<(Seq<char>, Seq<char>, LinkType, Seq<Language>)>,
) -> Seq<(Seq<char>, Seq<char>, LinkType, Seq<Language>)>
    decreases s.len(),
{
    if s.len() == 0 {
        Seq::empty()
    } else {
        let d = first_occurrences(s.drop_last());
        if d.contains(s.last()) {
            d
        } else {
            d.push(s.last())
        }
    }
}

/// `a` is shorter than `b`, or as long and sorts first.
pub open spec fn shorter(a: Seq<char>, b: Seq<char>) -> bool {
    a.len() < b.len() || (a.len() == b.len() && lex_lt(a, b))
}

/// The directory name a title's game keeps: the shortest of its variants',
/// the first in order among equals.
pub open spec fn shortest_slug(es: Seq<Variant>, ms: Seq<int>, n: int) -> Seq<char>
    decreases n,
{
    if n <= 1 {
        es[ms[0]].0@
    } else {
        let best = shortest_slug(es, ms, n - 1);
        if shorter(es[ms[n - 1]].0@, best) {
            es[ms[n - 1]].0@
        } else {
            best
        }
    }
}

/// The game title `t`'s variants (`ms`, in release order) collapse into.
pub open spec fn is_collapsed_game(g: Game<Vcs>, t: Seq<char>, es: Seq<Variant>, ms: Seq<int>) -> bool {
    &&& g.title@ == t
    &&& g.kind == GameKind::Game
    &&& match unified(developers(es, ms)) {
        Some(v) => g.developer matches Some(d) && d@ == v,
        None => g.developer is None,
    }
    &&& match unified(descriptions(es, ms)) {
        Some(v) => g.description matches Some(d) && d@ == v,
        None => g.description is None,
    }
    &&& views(g.tags@) == token_set(all_tags(es, ms, ms.len() as int))
    &&& g.links@.map_values(|l: Link| link_view(l)) == first_occurrences(all_links(es, ms, ms.len() as int))
    &&& g.covers@.len() == 0
    &&& g.screenshots@.len() == 0
    &&& g.mod_of is None
    &&& g.mods@.len() == 0
    &&& !g.curated
    &&& !g.adult
    &&& g.recommended_by@.len() == 0
    &&& g.releases@.len() == ms.len()
    &&& forall|k: int| 0 <= k < ms.len() ==> is_variant_release(#[trigger] g.releases@[k], es[ms[k]])
}

fn same_hardware_as(a: &Variant, b: &Variant) -> (r: bool)
    ensures
        r == same_hardware(*a, *b),
{
    let (_, wa) = split_wip(a.1.title.as_str());
    let (_, wb) = split_wip(b.1.title.as_str());
    if wa != wb || a.1.tv_format != b.1.tv_format {
        return false;
    }
    match (&a.1.cart_type, &b.1.cart_type) {
        (Some(x), Some(y)) => str_eq(x.as_str(), y.as_str()),
        (None, None) => true,
        _ => false,
    }
}

fn same_languages(a: &Vec<Language>, b: &Vec<Language>) -> (r: bool)
    ensures
        r == (a@ == b@),
{
    if a.len() != b.len() {
        return false;
    }
    let mut i: usize = 0;
    while i < a.len()
        invariant
            a@.len() == b@.len(),
            i <= a@.len(),
            forall|j: int| 0 <= j < i ==> a@[j] == b@[j],
        decreases a@.len() - i,
    {
        if a[i] != b[i] {
            return false;
        }
        i = i + 1;
    }
    assert(a@ =~= b@);
    true
}

fn same_link(a: &Link, b: &Link) -> (r: bool)
    ensures
        r == (link_view(*a) == link_view(*b)),
{
    str_eq(a.name.as_str(), b.name.as_str()) && str_eq(a.url.as_str(), b.url.as_str()) && a.link_type == b.link_type
        && same_languages(&a.languages, &b.languages)
}

fn has_link(links: &Vec<Link>, l: &Link) -> (r: bool)
    ensures
        r == links@.map_values(|x: Link| link_view(x)).contains(link_view(*l)),
{
    let ghost lv = links@.map_values(|x: Link| link_view(x));
    let mut i: usize = 0;
    while i < links.len()
        invariant
            i <= links@.len(),
            lv == links@.map_values(|x: Link| link_view(x)),
            forall|j: int| 0 <= j < i ==> lv[j] != link_view(*l),
        decreases links@.len() - i,
    {
        if same_link(&links[i], l) {
            assert(lv[i as int] == link_view(*l));
            return true;
        }
        i = i + 1;
    }
    false
}

/// Collapses the variants `ms` of title `t`, taken in release order, into
/// one game and the directory name it keeps; the report lines go to `notes`.
fn collapse_group(es: &Vec<Variant>, t: &String, ms: &Vec<usize>, notes: &mut Vec<(String, String)>) -> (r: (
    String,
    Game<Vcs>,
))
    requires
        ms@.len() > 0,
        forall|j: int| 0 <= j < ms@.len() ==> ms@[j] < es@.len(),
    ensures
        r.0@ == shortest_slug(es@, as_ints(ms@), ms@.len() as int),
        is_collapsed_game(r.1, t@, es@, as_ints(ms@)),
        note_views(final(notes)@) == note_views(old(notes)@) + group_notes(t@, es@, as_ints(ms@)),
{
    let ghost e = es@;
    let ghost m = as_ints(ms@);
    let ghost n0 = note_views(notes@);
    let mut slug = owned(es[ms[0]].0.as_str());
    let mut releases: Vec<Release<Vcs>> = Vec::new();
    let mut devs: Vec<Option<String>> = Vec::new();
    let mut descs: Vec<Option<String>> = Vec::new();
    let mut raw_tags: Vec<String> = Vec::new();
    let mut links: Vec<Link> = Vec::new();
    let mut k: usize = 0;
    assert(note_views(notes@) =~= n0 + member_notes(t@, e, m, 0));
    assert(views(raw_tags@) =~= all_tags(e, m, 0));
    assert(links@.map_values(|x: Link| link_view(x)) =~= first_occurrences(all_links(e, m, 0)));
    while k < ms.len()
        invariant
            e == es@,
            m == as_ints(ms@),
            ms@.len() > 0,
            forall|j: int| 0 <= j < ms@.len() ==> ms@[j] < es@.len(),
            0 <= k <= ms@.len(),
            k > 0 ==> slug@ == shortest_slug(e, m, k as int),
            k == 0 ==> slug@ == e[m[0]].0@,
            releases@.len() == k,
            forall|j: int| 0 <= j < k ==> is_variant_release(#[trigger] releases@[j], e[m[j]]),
            opt_views(devs@) == developers(e, m).take(k as int),
            opt_views(descs@) == descriptions(e, m).take(k as int),
            views(raw_tags@) == all_tags(e, m, k as int),
            links@.map_values(|x: Link| link_view(x)) == first_occurrences(all_links(e, m, k as int)),
            note_views(notes@) == n0 + member_notes(t@, e, m, k as int),
        decreases ms@.len() - k,
    {
        let v = &es[ms[k]];
        assert(m[k as int] == ms@[k as int] as int);
        // The latest earlier variant built for the same hardware.
        let mut j: usize = k;
        while j > 0 && !same_hardware_as(&es[ms[j - 1]], v)
            invariant
                j <= k,
                k < ms@.len(),
                e == es@,
                m == as_ints(ms@),
                forall|i: int| 0 <= i < ms@.len() ==> ms@[i] < es@.len(),
                *v == e[m[k as int]],
                last_same(e, m, k as int, k as int) == last_same(e, m, k as int, j as int),
            decreases j,
        {
            j = j - 1;
        }
        let ghost before = note_views(notes@);
        if j > 0 {
            assert(last_same(e, m, k as int, k as int) == Some(j - 1));
            let mut line = debug_quoted(t.as_str());
            push_str(&mut line, ": ");
            push_str(&mut line, es[ms[j - 1]].0.as_str());
            push_str(&mut line, " and ");
            push_str(&mut line, v.0.as_str());
            push_note(notes, "Same title with identical hardware", line);
        } else {
            assert(last_same(e, m, k as int, k as int) is None);
        }
        assert(note_views(notes@) == before + dup_note(t@, e, m, k as int));
        let release = variant_release(v, notes);
        releases.push(release);
        assert(note_views(notes@) =~= n0 + member_notes(t@, e, m, k + 1));
        if k > 0 {
            let c = chars_of(v.0.as_str());
            let b = chars_of(slug.as_str());
            if c.len() < b.len() || (c.len() == b.len() && lex_less(&c, &b)) {
                slug = owned(v.0.as_str());
            }
        }
        let ghost d0 = opt_views(devs@);
        let ghost s0 = opt_views(descs@);
        devs.push(match &v.1.developer {
            Some(d) => Some(owned(d.as_str())),
            None => None,
        });
        descs.push(match &v.1.description {
            Some(d) => Some(owned(d.as_str())),
            None => None,
        });
        assert(opt_views(devs@) =~= d0.push(opt_text(v.1.developer)));
        assert(opt_views(descs@) =~= s0.push(opt_text(v.1.description)));
        assert(developers(e, m).take(k + 1) =~= developers(e, m).take(k as int).push(opt_text(e[m[k as int]].1.developer)));
        assert(descriptions(e, m).take(k + 1) =~= descriptions(e, m).take(k as int).push(
            opt_text(e[m[k as int]].1.description),
        ));
        let mut q: usize = 0;
        let ghost tags0 = views(raw_tags@);
        while q < v.1.tags.len()
            invariant
                q <= v.1.tags@.len(),
                views(raw_tags@) == tags0 + views(v.1.tags@).take(q as int),
            decreases v.1.tags@.len() - q,
        {
            let ghost rt = views(raw_tags@);
            raw_tags.push(owned(v.1.tags[q].as_str()));
            assert(views(raw_tags@) =~= rt.push(v.1.tags@[q as int]@));
            assert(views(v.1.tags@).take(q + 1) =~= views(v.1.tags@).take(q as int).push(v.1.tags@[q as int]@));
            assert(views(raw_tags@) =~= tags0 + views(v.1.tags@).take(q + 1));
            q = q + 1;
        }
        assert(views(v.1.tags@).take(v.1.tags@.len() as int) == views(v.1.tags@));
        let mut q: usize = 0;
        let ghost lk = all_links(e, m, k as int);
        let ghost own = v.1.links@.map_values(|x: Link| link_view(x));
        assert(all_links(e, m, k + 1) == lk + own);
        assert(lk + own.take(0) =~= lk);
        while q < v.1.links.len()
            invariant
                q <= v.1.links@.len(),
                own == v.1.links@.map_values(|x: Link| link_view(x)),
                links@.map_values(|x: Link| link_view(x)) == first_occurrences(lk + own.take(q as int)),
            decreases v.1.links@.len() - q,
        {
            let ghost s1 = lk + own.take(q + 1);
            assert(s1.drop_last() =~= lk + own.take(q as int));
            assert(s1.last() == link_view(v.1.links@[q as int]));
            if !has_link(&links, &v.1.links[q]) {
                let ghost lv = links@.map_values(|x: Link| link_view(x));
                links.push(copy_link(&v.1.links[q]));
                assert(links@.map_values(|x: Link| link_view(x)) =~= lv.push(link_view(v.1.links@[q as int])));
            }
            q = q + 1;
        }
        assert(own.take(own.len() as int) == own);
        k = k + 1;
    }
    assert(developers(e, m).take(m.len() as int) == developers(e, m));
    assert(descriptions(e, m).take(m.len() as int) == descriptions(e, m));
    let ghost n1 = note_views(notes@);
    let (developer, dev_conflict) = unify_values(&devs);
    if dev_conflict {
        push_note(notes, "Conflicting game fields left empty", conflict_text(t.as_str(), "developer"));
    }
    let (description, desc_conflict) = unify_values(&descs);
    if desc_conflict {
        push_note(notes, "Conflicting game fields left empty", conflict_text(t.as_str(), "description"));
    }
    proof {
        reveal_strlit("developer");
        reveal_strlit("description");
    }
    assert(note_views(notes@) =~= n1 + conflict_note(t@, "developer"@, developers(e, m)) + conflict_note(
        t@,
        "description"@,
        descriptions(e, m),
    ));
    let ghost n2 = note_views(notes@);
    let mut k: usize = 0;
    assert(note_views(notes@) =~= n2 + shot_notes(e, m, 0));
    while k < ms.len()
        invariant
            e == es@,
            m == as_ints(ms@),
            forall|j: int| 0 <= j < ms@.len() ==> ms@[j] < es@.len(),
            k <= ms@.len(),
            note_views(notes@) == n2 + shot_notes(e, m, k as int),
        decreases ms@.len() - k,
    {
        let v = &es[ms[k]];
        let ghost before = note_views(notes@);
        if v.1.screenshots.len() > 0 {
            push_note(notes, "Screenshot filenames dropped (no URL derivable)", owned(v.0.as_str()));
        }
        assert(note_views(notes@) =~= n2 + shot_notes(e, m, k + 1));
        k = k + 1;
    }
    let tags = token_set_of(&raw_tags);
    let game = Game {
        title: owned(t.as_str()),
        kind: GameKind::Game,
        developer,
        description,
        tags,
        links,
        covers: Vec::new(),
        screenshots: Vec::new(),
        mod_of: None,
        mods: Vec::new(),
        curated: false,
        adult: false,
        recommended_by: Vec::new(),
        releases,
    };
    (slug, game)
}

/// What collapsing title by title files, for the first `n` titles.
pub open spec fn groups_notes(es: Seq<Variant>, gts: Seq<Seq<char>>, n: int) -> Seq<(Seq<char>, Seq<char>)>
    decreases n,
{
    if n <= 0 {
        Seq::empty()
    } else {
        groups_notes(es, gts, n - 1) + group_notes(gts[n - 1], es, group_of(es, gts[n - 1]))
    }
}

/// What collapsing a tree's variants files, in order: titles that collate
/// alike but were left apart, then each title's lines in title order.
pub open spec fn collapse_notes(es: Seq<Variant>) -> Seq<(Seq<char>, Seq<char>)> {
    near_miss_lines(group_titles(es)).map_values(|l: Seq<char>| ("Near-miss titles left unmerged"@, l))
        + groups_notes(es, group_titles(es), group_titles(es).len() as int)
}

/// Collapses a VCS tree of per-variant entries (directory name, manifest;
/// in directory order) into one game per title: the variants of a title,
/// its " (WIP)" suffix aside, become its releases. Returns the games in
/// title order with the directory name each keeps, the counts, and the
/// report lines as (section, item).
pub fn collapse_variants(es: &Vec<Variant>) -> (r: (Vec<(String, Game<Vcs>)>, Stats, Vec<(String, String)>))
    ensures
        r.0@.len() == group_titles(es@).len(),
        forall|g: int|
            0 <= g < r.0@.len() ==> {
                let ms = group_of(es@, group_titles(es@)[g]);
                &&& (#[trigger] r.0@[g]).0@ == shortest_slug(es@, ms, ms.len() as int)
                &&& is_collapsed_game(r.0@[g].1, group_titles(es@)[g], es@, ms)
            },
        r.1.entries_before == es@.len(),
        r.1.games_after == r.0@.len(),
        r.1.releases == es@.len(),
        note_views(r.2@) == collapse_notes(es@),
{
    let mut titles: Vec<String> = Vec::new();
    let mut i: usize = 0;
    while i < es.len()
        invariant
            i <= es@.len(),
            views(titles@) == titles_of(es@).take(i as int),
        decreases es@.len() - i,
    {
        let ghost before = views(titles@);
        let (t, _) = split_wip(es[i].1.title.as_str());
        titles.push(t);
        assert(views(titles@) =~= before.push(variant_title(es@[i as int])));
        assert(titles_of(es@).take(i + 1) =~= titles_of(es@).take(i as int).push(variant_title(es@[i as int])));
        i = i + 1;
    }
    assert(titles_of(es@).take(es@.len() as int) == titles_of(es@));
    let gts = token_set_of(&titles);
    let ghost g = views(gts@);
    assert(g == group_titles(es@));
    let near = near_misses(&gts);
    let mut notes: Vec<(String, String)> = Vec::new();
    let mut k: usize = 0;
    let ghost lines = near_miss_lines(g);
    assert(note_views(notes@) =~= lines.take(0).map_values(|l: Seq<char>| ("Near-miss titles left unmerged"@, l)));
    while k < near.len()
        invariant
            k <= near@.len(),
            views(near@) == lines,
            note_views(notes@) == lines.take(k as int).map_values(|l: Seq<char>| ("Near-miss titles left unmerged"@, l)),
        decreases near@.len() - k,
    {
        let ghost before = note_views(notes@);
        push_note(&mut notes, "Near-miss titles left unmerged", owned(near[k].as_str()));
        assert(lines.take(k + 1).map_values(|l: Seq<char>| ("Near-miss titles left unmerged"@, l)) =~= lines.take(
            k as int,
        ).map_values(|l: Seq<char>| ("Near-miss titles left unmerged"@, l)).push(
            ("Near-miss titles left unmerged"@, near@[k as int]@),
        ));
        k = k + 1;
    }
    assert(lines.take(lines.len() as int) == lines);
    let ghost n0 = note_views(notes@);
    let mut games: Vec<(String, Game<Vcs>)> = Vec::new();
    let mut q: usize = 0;
    assert(note_views(notes@) =~= n0 + groups_notes(es@, g, 0));
    while q < gts.len()
        invariant
            q <= gts@.len(),
            g == views(gts@),
            g == group_titles(es@),
            views(titles@) == titles_of(es@),
            games@.len() == q,
            forall|x: int|
                0 <= x < q ==> {
                    let ms = group_of(es@, g[x]);
                    &&& (#[trigger] games@[x]).0@ == shortest_slug(es@, ms, ms.len() as int)
                    &&& is_collapsed_game(games@[x].1, g[x], es@, ms)
                },
            note_views(notes@) == n0 + groups_notes(es@, g, q as int),
        decreases gts@.len() - q,
    {
        let ms = group_members(es, &titles, gts[q].as_str());
        assert(g[q as int] == gts@[q as int]@);
        proof {
            lemma_token_set(titles_of(es@));
            assert(group_titles(es@).contains(g[q as int]));
            lemma_group_nonempty(es@, g[q as int]);
        }
        let (slug, game) = collapse_group(es, &gts[q], &ms, &mut notes);
        games.push((slug, game));
        assert(note_views(notes@) =~= n0 + groups_notes(es@, g, q + 1));
        q = q + 1;
    }
    let n = es.len();
    let count = games.len();
    (games, Stats { entries_before: n, games_after: count, releases: n }, notes)
}

/// A title some variant carries has at least one variant.
proof fn lemma_group_nonempty(es: Seq<Variant>, t: Seq<char>)
    requires
        titles_of(es).contains(t),
    ensures
        group_of(es, t).len() > 0,
        forall|j: int| 0 <= j < group_of(es, t).len() ==> 0 <= #[trigger] group_of(es, t)[j] < es.len(),
{
    let i = choose|i: int| 0 <= i < titles_of(es).len() && titles_of(es)[i] == t;
    lemma_members_upto(es, t, es.len() as int, i);
    lemma_sort_len(members_upto(es, t, es.len() as int), variant_order(es));
    lemma_sort_members(members_upto(es, t, es.len() as int), variant_order(es));
}

proof fn lemma_members_upto(es: Seq<Variant>, t: Seq<char>, n: int, i: int)
    requires
        0 <= i < n <= es.len(),
        variant_title(es[i]) == t,
    ensures
        members_upto(es, t, n).len() > 0,
        forall|j: int| 0 <= j < members_upto(es, t, n).len() ==> 0 <= #[trigger] members_upto(es, t, n)[j] < n,
    decreases n,
{
    lemma_members_bounded(es, t, n);
    if i < n - 1 {
        lemma_members_upto(es, t, n - 1, i);
    }
}

proof fn lemma_members_bounded(es: Seq<Variant>, t: Seq<char>, n: int)
    ensures
        forall|j: int| 0 <= j < members_upto(es, t, n).len() ==> 0 <= #[trigger] members_upto(es, t, n)[j] < n,
    decreases n,
{
    if n > 0 {
        lemma_members_bounded(es, t, n - 1);
        let pre = members_upto(es, t, n - 1);
        let all = members_upto(es, t, n);
        assert forall|j: int| 0 <= j < all.len() implies 0 <= #[trigger] all[j] < n by {
            if j < pre.len() {
                assert(all[j] == pre[j]);
            }
        }
    }
}

/// How many of `raw` equal each of `set`, summed.
pub open spec fn counts_over(raw: Seq<Seq<char>>, set: Seq<Seq<char>>) -> int
    decreases set.len(),
{
    if set.len() == 0 {
        0
    } else {
        count_equal(raw, set[0]) + counts_over(raw, set.drop_first())
    }
}

/// The releases the titles' games hold together, for the first `n` titles.
pub open spec fn releases_held(es: Seq<Variant>, gts: Seq<Seq<char>>, n: int) -> int
    decreases n,
{
    if n <= 0 {
        0
    } else {
        releases_held(es, gts, n - 1) + group_of(es, gts[n - 1]).len()
    }
}

proof fn lemma_members_count(es: Seq<Variant>, t: Seq<char>, n: int)
    requires
        0 <= n <= es.len(),
    ensures
        members_upto(es, t, n).len() == count_equal(titles_of(es).take(n), t),
    decreases n,
{
    if n > 0 {
        lemma_members_count(es, t, n - 1);
        assert(titles_of(es).take(n).drop_last() =~= titles_of(es).take(n - 1));
    }
}

proof fn lemma_counts_push(raw: Seq<Seq<char>>, set: Seq<Seq<char>>, x: Seq<char>)
    requires
        forall|i: int, j: int| 0 <= i < j < set.len() ==> set[i] != set[j],
    ensures
        counts_over(raw.push(x), set) == counts_over(raw, set) + if set.contains(x) {
            1int
        } else {
            0int
        },
    decreases set.len(),
{
    if set.len() > 0 {
        let rest = set.drop_first();
        assert forall|i: int, j: int| 0 <= i < j < rest.len() implies rest[i] != rest[j] by {
            assert(rest[i] == set[i + 1] && rest[j] == set[j + 1]);
        }
        lemma_counts_push(raw, rest, x);
        assert(raw.push(x).drop_last() =~= raw);
        if set[0] == x {
            assert(!rest.contains(x)) by {
                if rest.contains(x) {
                    let k = choose|k: int| 0 <= k < rest.len() && rest[k] == x;
                    assert(set[k + 1] == x);
                }
            }
        } else {
            if set.contains(x) {
                let k = choose|k: int| 0 <= k < set.len() && set[k] == x;
                assert(rest[k - 1] == x);
            }
            if rest.contains(x) {
                let k = choose|k: int| 0 <= k < rest.len() && rest[k] == x;
                assert(set[k + 1] == x);
            }
        }
    }
}

proof fn lemma_counts_insert(raw: Seq<Seq<char>>, set: Seq<Seq<char>>, x: Seq<char>)
    requires
        !set.contains(x),
    ensures
        counts_over(raw, crate::fix_slugs::insert_sorted(set, x)) == counts_over(raw, set) + count_equal(raw, x),
    decreases set.len(),
{
    let r = crate::fix_slugs::insert_sorted(set, x);
    if set.len() == 0 {
        assert(r == seq![x]);
        assert(r[0] == x);
        assert(r.drop_first() =~= Seq::<Seq<char>>::empty());
        assert(counts_over(raw, r.drop_first()) == 0);
        assert(counts_over(raw, set) == 0);
    } else if set[0] == x {
        assert(set.contains(x));
    } else if lex_lt(x, set[0]) {
        assert(r == seq![x] + set);
        assert(r[0] == x);
        assert(r.drop_first() =~= set);
    } else {
        let rest = set.drop_first();
        assert(!rest.contains(x)) by {
            if rest.contains(x) {
                let k = choose|k: int| 0 <= k < rest.len() && rest[k] == x;
                assert(set[k + 1] == x);
            }
        }
        lemma_counts_insert(raw, rest, x);
        assert(r == seq![set[0]] + crate::fix_slugs::insert_sorted(rest, x));
        assert(r[0] == set[0]);
        assert(r.drop_first() =~= crate::fix_slugs::insert_sorted(rest, x));
    }
}

/// Each string occurs in `raw` as often as the distinct strings, counted,
/// add up to: the counts over the token set sum to the whole.
proof fn lemma_counts_total(raw: Seq<Seq<char>>)
    ensures
        counts_over(raw, token_set(raw)) == raw.len(),
    decreases raw.len(),
{
    if raw.len() > 0 {
        let pre = raw.drop_last();
        let x = raw.last();
        lemma_counts_total(pre);
        lemma_token_set(pre);
        lemma_token_set(raw);
        let s = token_set(pre);
        assert(raw == pre.push(x));
        assert forall|i: int, j: int| 0 <= i < j < s.len() implies s[i] != s[j] by {
            crate::fix_slugs::lemma_lex_irrefl(s[i]);
        }
        lemma_counts_push(pre, s, x);
        if s.contains(x) {
            lemma_insert_present(s, x);
            assert(token_set(raw) == s);
        } else {
            lemma_counts_insert(raw, s, x);
            assert(!pre.contains(x));
            lemma_count_absent(pre, x);
            assert(count_equal(raw, x) == count_equal(pre, x) + 1);
        }
    }
}

proof fn lemma_count_absent(raw: Seq<Seq<char>>, x: Seq<char>)
    requires
        !raw.contains(x),
    ensures
        count_equal(raw, x) == 0,
    decreases raw.len(),
{
    if raw.len() > 0 {
        assert(!raw.drop_last().contains(x)) by {
            if raw.drop_last().contains(x) {
                let k = choose|k: int| 0 <= k < raw.drop_last().len() && raw.drop_last()[k] == x;
                assert(raw[k] == x);
            }
        }
        lemma_count_absent(raw.drop_last(), x);
        assert(raw.last() != x) by {
            if raw.last() == x {
                assert(raw[raw.len() - 1] == x);
            }
        }
    }
}

proof fn lemma_insert_present(s: Seq<Seq<char>>, x: Seq<char>)
    requires
        crate::fix_slugs::strictly_sorted(s),
        s.contains(x),
    ensures
        crate::fix_slugs::insert_sorted(s, x) == s,
    decreases s.len(),
{
    if s[0] != x {
        let k = choose|k: int| 0 <= k < s.len() && s[k] == x;
        assert(k > 0);
        assert(lex_lt(s[0], s[k]));
        if lex_lt(x, s[0]) {
            crate::fix_slugs::lemma_lex_trans(x, s[0], x);
            crate::fix_slugs::lemma_lex_irrefl(x);
        }
        let rest = s.drop_first();
        assert(rest[k - 1] == x);
        assert forall|i: int, j: int| 0 <= i < j < rest.len() implies lex_lt(#[trigger] rest[i], #[trigger] rest[j]) by {
            assert(rest[i] == s[i + 1] && rest[j] == s[j + 1]);
        }
        lemma_insert_present(rest, x);
        assert(s == seq![s[0]] + rest);
    }
}

proof fn lemma_releases_prefix(es: Seq<Variant>, gts: Seq<Seq<char>>, n: int)
    requires
        0 <= n <= gts.len(),
    ensures
        releases_held(es, gts, n) == counts_over(titles_of(es), gts.take(n)),
    decreases n,
{
    if n > 0 {
        lemma_releases_prefix(es, gts, n - 1);
        lemma_counts_append(titles_of(es), gts.take(n - 1), gts[n - 1]);
        assert(gts.take(n) =~= gts.take(n - 1).push(gts[n - 1]));
        lemma_members_count(es, gts[n - 1], es.len() as int);
        lemma_sort_len(members_upto(es, gts[n - 1], es.len() as int), variant_order(es));
        assert(titles_of(es).take(es.len() as int) =~= titles_of(es));
    }
}

proof fn lemma_counts_append(raw: Seq<Seq<char>>, set: Seq<Seq<char>>, x: Seq<char>)
    ensures
        counts_over(raw, set.push(x)) == counts_over(raw, set) + count_equal(raw, x),
    decreases set.len(),
{
    if set.len() == 0 {
        assert(set.push(x)[0] == x);
        assert(set.push(x).drop_first() =~= Seq::<Seq<char>>::empty());
        assert(counts_over(raw, set.push(x).drop_first()) == 0);
        assert(counts_over(raw, set) == 0);
    } else {
        lemma_counts_append(raw, set.drop_first(), x);
        assert(set.push(x)[0] == set[0]);
        assert(set.push(x).drop_first() =~= set.drop_first().push(x));
    }
}

/// Collapsing keeps every variant: the titles' games hold, together, one
/// release per variant entry.
pub proof fn lemma_every_variant_one_release(es: Seq<Variant>)
    ensures
        releases_held(es, group_titles(es), group_titles(es).len() as int) == es.len(),
{
    let g = group_titles(es);
    lemma_releases_prefix(es, g, g.len() as int);
    assert(g.take(g.len() as int) == g);
    lemma_counts_total(titles_of(es));
}

/// The dumps the variants at the given indices keep, in order.
pub open spec fn kept_hashes(es: Seq<Variant>, idx: Seq<int>) -> Seq<Seq<char>>
    decreases idx.len(),
{
    if idx.len() == 0 {
        Seq::empty()
    } else {
        kept_hashes(es, idx.drop_last()) + legacy_hashes(views(es[idx.last()].1.hashes@))
    }
}

/// The dumps the first `n` variant entries keep, in entry order.
pub open spec fn entries_hashes(es: Seq<Variant>, n: int) -> Seq<Seq<char>>
    decreases n,
{
    if n <= 0 {
        Seq::empty()
    } else {
        entries_hashes(es, n - 1) + legacy_hashes(views(es[n - 1].1.hashes@))
    }
}

/// The dumps the games of the first `n` titles hold, title by title.
pub open spec fn collapsed_hashes(es: Seq<Variant>, gts: Seq<Seq<char>>, n: int) -> Seq<Seq<char>>
    decreases n,
{
    if n <= 0 {
        Seq::empty()
    } else {
        collapsed_hashes(es, gts, n - 1) + kept_hashes(es, group_of(es, gts[n - 1]))
    }
}

pub open spec fn own_hashes(v: Variant) -> Multiset<Seq<char>> {
    legacy_hashes(views(v.1.hashes@)).to_multiset()
}

/// The dumps of each title's first-`n` variants, over a list of titles.
pub open spec fn titles_dumps(es: Seq<Variant>, set: Seq<Seq<char>>, n: int) -> Multiset<Seq<char>>
    decreases set.len(),
{
    if set.len() == 0 {
        Multiset::empty()
    } else {
        kept_hashes(es, members_upto(es, set[0], n)).to_multiset().add(titles_dumps(es, set.drop_first(), n))
    }
}

proof fn lemma_kept_push(es: Seq<Variant>, idx: Seq<int>, x: int)
    ensures
        kept_hashes(es, idx.push(x)).to_multiset() == kept_hashes(es, idx).to_multiset().add(own_hashes(es[x])),
{
    broadcast use vstd::seq_lib::lemma_multiset_commutative;

    assert(idx.push(x).drop_last() =~= idx);
}

proof fn lemma_insert_dumps(es: Seq<Variant>, s: Seq<int>, x: int)
    ensures
        kept_hashes(es, insert_variant(es, s, x)).to_multiset() == kept_hashes(es, s).to_multiset().add(
            own_hashes(es[x]),
        ),
    decreases s.len(),
{
    broadcast use vstd::multiset::group_multiset_axioms;
    broadcast use vstd::seq_lib::group_to_multiset_ensures;

    if s.len() == 0 || !variant_before(es[x], es[s.last()]) {
        lemma_kept_push(es, s, x);
    } else {
        let l = s.last();
        lemma_insert_dumps(es, s.drop_last(), x);
        lemma_kept_push(es, insert_variant(es, s.drop_last(), x), l);
        lemma_kept_push(es, s.drop_last(), l);
        assert(s.drop_last().push(l) =~= s);
        assert(kept_hashes(es, insert_variant(es, s, x)).to_multiset() =~= kept_hashes(es, s).to_multiset().add(
            own_hashes(es[x]),
        ));
    }
}

/// Sorting a title's variants keeps their dumps.
proof fn lemma_sort_dumps(es: Seq<Variant>, idx: Seq<int>)
    ensures
        kept_hashes(es, sort_variants(es, idx)).to_multiset() == kept_hashes(es, idx).to_multiset(),
    decreases idx.len(),
{
    broadcast use vstd::multiset::group_multiset_axioms;
    broadcast use vstd::seq_lib::group_to_multiset_ensures;

    if idx.len() > 0 {
        lemma_sort_dumps(es, idx.drop_last());
        lemma_insert_dumps(es, sort_variants(es, idx.drop_last()), idx.last());
        lemma_kept_push(es, idx.drop_last(), idx.last());
        assert(idx.drop_last().push(idx.last()) =~= idx);
    }
}

proof fn lemma_titles_dumps_step(es: Seq<Variant>, set: Seq<Seq<char>>, n: int)
    requires
        0 < n <= es.len(),
        forall|i: int, j: int| 0 <= i < j < set.len() ==> set[i] != set[j],
    ensures
        titles_dumps(es, set, n) == titles_dumps(es, set, n - 1).add(
            if set.contains(variant_title(es[n - 1])) {
                own_hashes(es[n - 1])
            } else {
                Multiset::empty()
            },
        ),
    decreases set.len(),
{
    broadcast use vstd::multiset::group_multiset_axioms;
    broadcast use vstd::seq_lib::group_to_multiset_ensures;

    if set.len() > 0 {
        let rest = set.drop_first();
        let x = variant_title(es[n - 1]);
        assert forall|i: int, j: int| 0 <= i < j < rest.len() implies rest[i] != rest[j] by {
            assert(rest[i] == set[i + 1] && rest[j] == set[j + 1]);
        }
        lemma_titles_dumps_step(es, rest, n);
        let m0 = members_upto(es, set[0], n - 1);
        if set[0] == x {
            assert(members_upto(es, set[0], n) == m0.push(n - 1));
            lemma_kept_push(es, m0, n - 1);
            assert(!rest.contains(x)) by {
                if rest.contains(x) {
                    let k = choose|k: int| 0 <= k < rest.len() && rest[k] == x;
                    assert(set[k + 1] == x);
                }
            }
            assert(set.contains(x)) by {
                assert(set[0] == x);
            }
        } else {
            assert(members_upto(es, set[0], n) =~= m0);
            if set.contains(x) {
                let k = choose|k: int| 0 <= k < set.len() && set[k] == x;
                assert(rest[k - 1] == x);
            }
            if rest.contains(x) {
                let k = choose|k: int| 0 <= k < rest.len() && rest[k] == x;
                assert(set[k + 1] == x);
            }
        }
        assert(titles_dumps(es, set, n) =~= titles_dumps(es, set, n - 1).add(
            if set.contains(x) {
                own_hashes(es[n - 1])
            } else {
                Multiset::empty()
            },
        ));
    }
}

proof fn lemma_titles_dumps_insert(es: Seq<Variant>, set: Seq<Seq<char>>, x: Seq<char>, n: int)
    requires
        !set.contains(x),
    ensures
        titles_dumps(es, crate::fix_slugs::insert_sorted(set, x), n) == titles_dumps(es, set, n).add(
            kept_hashes(es, members_upto(es, x, n)).to_multiset(),
        ),
    decreases set.len(),
{
    broadcast use vstd::multiset::group_multiset_axioms;
    broadcast use vstd::seq_lib::group_to_multiset_ensures;

    let r = crate::fix_slugs::insert_sorted(set, x);
    let mx = kept_hashes(es, members_upto(es, x, n)).to_multiset();
    if set.len() == 0 {
        assert(r == seq![x]);
        assert(r[0] == x);
        assert(r.drop_first() =~= Seq::<Seq<char>>::empty());
        assert(titles_dumps(es, r.drop_first(), n) == Multiset::<Seq<char>>::empty());
        assert(titles_dumps(es, set, n) == Multiset::<Seq<char>>::empty());
        assert(titles_dumps(es, r, n) == mx.add(Multiset::empty()));
        assert(titles_dumps(es, r, n) =~= titles_dumps(es, set, n).add(mx));
    } else if set[0] == x {
        assert(set.contains(x));
    } else if lex_lt(x, set[0]) {
        assert(r == seq![x] + set);
        assert(r[0] == x);
        assert(r.drop_first() =~= set);
        assert(titles_dumps(es, r, n) =~= titles_dumps(es, set, n).add(mx));
    } else {
        let rest = set.drop_first();
        assert(!rest.contains(x)) by {
            if rest.contains(x) {
                let k = choose|k: int| 0 <= k < rest.len() && rest[k] == x;
                assert(set[k + 1] == x);
            }
        }
        lemma_titles_dumps_insert(es, rest, x, n);
        assert(r == seq![set[0]] + crate::fix_slugs::insert_sorted(rest, x));
        assert(r[0] == set[0]);
        assert(r.drop_first() =~= crate::fix_slugs::insert_sorted(rest, x));
        assert(titles_dumps(es, r, n) =~= titles_dumps(es, set, n).add(mx));
    }
}

proof fn lemma_no_members(es: Seq<Variant>, x: Seq<char>, n: int)
    requires
        0 <= n <= es.len(),
        !titles_of(es).take(n).contains(x),
    ensures
        members_upto(es, x, n).len() == 0,
    decreases n,
{
    if n > 0 {
        assert(titles_of(es).take(n)[n - 1] == variant_title(es[n - 1]));
        assert(!titles_of(es).take(n - 1).contains(x)) by {
            if titles_of(es).take(n - 1).contains(x) {
                let t1 = titles_of(es).take(n - 1);
                let k = choose|k: int| 0 <= k < t1.len() && t1[k] == x;
                assert(titles_of(es).take(n)[k] == x);
            }
        }
        lemma_no_members(es, x, n - 1);
    }
}

/// The titles of the first `n` entries, between them, keep every dump those
/// entries keep.
proof fn lemma_partition_dumps(es: Seq<Variant>, n: int)
    requires
        0 <= n <= es.len(),
    ensures
        titles_dumps(es, token_set(titles_of(es).take(n)), n) == entries_hashes(es, n).to_multiset(),
    decreases n,
{
    broadcast use vstd::multiset::group_multiset_axioms;
    broadcast use vstd::seq_lib::group_to_multiset_ensures;
    broadcast use vstd::seq_lib::lemma_multiset_commutative;

    if n == 0 {
        assert(titles_of(es).take(0) =~= Seq::<Seq<char>>::empty());
        assert(entries_hashes(es, 0).to_multiset() =~= Multiset::empty());
    } else {
        lemma_partition_dumps(es, n - 1);
        let pre = titles_of(es).take(n - 1);
        let x = variant_title(es[n - 1]);
        assert(titles_of(es).take(n) =~= pre.push(x));
        assert(pre.push(x).drop_last() =~= pre);
        let s = token_set(pre);
        lemma_token_set(pre);
        assert forall|i: int, j: int| 0 <= i < j < s.len() implies s[i] != s[j] by {
            crate::fix_slugs::lemma_lex_irrefl(s[i]);
        }
        lemma_titles_dumps_step(es, s, n);
        if s.contains(x) {
            lemma_insert_present(s, x);
            assert(token_set(titles_of(es).take(n)) == s);
        } else {
            lemma_titles_dumps_insert(es, s, x, n);
            assert(!pre.contains(x));
            lemma_no_members(es, x, n - 1);
            assert(members_upto(es, x, n - 1) =~= Seq::<int>::empty());
            assert(members_upto(es, x, n) =~= seq![n - 1]);
            assert(seq![n - 1] =~= Seq::<int>::empty().push(n - 1));
            lemma_kept_push(es, Seq::<int>::empty(), n - 1);
            assert(kept_hashes(es, Seq::<int>::empty()).to_multiset() =~= Multiset::empty());
        }
        assert(titles_dumps(es, token_set(titles_of(es).take(n)), n) =~= entries_hashes(es, n).to_multiset());
    }
}

proof fn lemma_titles_dumps_append(es: Seq<Variant>, set: Seq<Seq<char>>, t: Seq<char>, n: int)
    ensures
        titles_dumps(es, set.push(t), n) == titles_dumps(es, set, n).add(
            kept_hashes(es, members_upto(es, t, n)).to_multiset(),
        ),
    decreases set.len(),
{
    broadcast use vstd::multiset::group_multiset_axioms;
    broadcast use vstd::seq_lib::group_to_multiset_ensures;

    if set.len() == 0 {
        assert(set.push(t)[0] == t);
        assert(set.push(t).drop_first() =~= Seq::<Seq<char>>::empty());
        assert(titles_dumps(es, set.push(t).drop_first(), n) == Multiset::<Seq<char>>::empty());
        assert(titles_dumps(es, set, n) == Multiset::<Seq<char>>::empty());
        assert(titles_dumps(es, set.push(t), n) =~= titles_dumps(es, set, n).add(
            kept_hashes(es, members_upto(es, t, n)).to_multiset(),
        ));
    } else {
        lemma_titles_dumps_append(es, set.drop_first(), t, n);
        assert(set.push(t)[0] == set[0]);
        assert(set.push(t).drop_first() =~= set.drop_first().push(t));
        assert(titles_dumps(es, set.push(t), n) =~= titles_dumps(es, set, n).add(
            kept_hashes(es, members_upto(es, t, n)).to_multiset(),
        ));
    }
}

proof fn lemma_collapsed_prefix(es: Seq<Variant>, gts: Seq<Seq<char>>, k: int)
    requires
        0 <= k <= gts.len(),
    ensures
        collapsed_hashes(es, gts, k).to_multiset() == titles_dumps(es, gts.take(k), es.len() as int),
    decreases k,
{
    broadcast use vstd::multiset::group_multiset_axioms;
    broadcast use vstd::seq_lib::group_to_multiset_ensures;
    broadcast use vstd::seq_lib::lemma_multiset_commutative;

    if k == 0 {
        assert(gts.take(0) =~= Seq::<Seq<char>>::empty());
        assert(collapsed_hashes(es, gts, 0).to_multiset() =~= Multiset::empty());
    } else {
        lemma_collapsed_prefix(es, gts, k - 1);
        assert(gts.take(k) =~= gts.take(k - 1).push(gts[k - 1]));
        lemma_titles_dumps_append(es, gts.take(k - 1), gts[k - 1], es.len() as int);
        lemma_sort_dumps(es, members_upto(es, gts[k - 1], es.len() as int));
    }
}

/// Collapsing keeps every dump: the games, together, hold each dump the
/// variant entries kept, as often as they kept it.
pub proof fn lemma_collapse_keeps_dumps(es: Seq<Variant>)
    ensures
        collapsed_hashes(es, group_titles(es), group_titles(es).len() as int).to_multiset() == entries_hashes(
            es,
            es.len() as int,
        ).to_multiset(),
{
    let g = group_titles(es);
    lemma_collapsed_prefix(es, g, g.len() as int);
    assert(g.take(g.len() as int) == g);
    assert(titles_of(es).take(es.len() as int) == titles_of(es));
    lemma_partition_dumps(es, es.len() as int);
}

proof fn lemma_release_hashes(rs: Seq<Release<Vcs>>, es: Seq<Variant>, ms: Seq<int>, j: int)
    requires
        0 <= j <= rs.len(),
        rs.len() == ms.len(),
        forall|k: int| 0 <= k < ms.len() ==> is_variant_release(#[trigger] rs[k], es[ms[k]]),
    ensures
        crate::verify_hashes::release_hashes(rs.take(j)) == kept_hashes(es, ms.take(j)),
    decreases j,
{
    if j > 0 {
        lemma_release_hashes(rs, es, ms, j - 1);
        assert(rs.take(j).drop_last() =~= rs.take(j - 1));
        assert(ms.take(j).drop_last() =~= ms.take(j - 1));
        assert(is_variant_release(rs[j - 1], es[ms[j - 1]]));
    }
}

proof fn lemma_games_hashes(games: Seq<(String, Game<Vcs>)>, es: Seq<Variant>, k: int)
    requires
        0 <= k <= games.len(),
        games.len() == group_titles(es).len(),
        forall|x: int|
            0 <= x < games.len() ==> is_collapsed_game(
                (#[trigger] games[x]).1,
                group_titles(es)[x],
                es,
                group_of(es, group_titles(es)[x]),
            ),
    ensures
        crate::tree::games_hashes(games.take(k)) == collapsed_hashes(es, group_titles(es), k),
    decreases k,
{
    if k > 0 {
        lemma_games_hashes(games, es, k - 1);
        assert(games.take(k).drop_last() =~= games.take(k - 1));
        let g = games[k - 1].1;
        let ms = group_of(es, group_titles(es)[k - 1]);
        assert(is_collapsed_game(g, group_titles(es)[k - 1], es, ms));
        lemma_release_hashes(g.releases@, es, ms, ms.len() as int);
        assert(g.releases@.take(ms.len() as int) == g.releases@);
        assert(ms.take(ms.len() as int) == ms);
    }
}

/// The games a collapse returns hold, together, each dump the variant
/// entries kept, as often as they kept it.
pub proof fn lemma_collapsed_games_keep_dumps(es: Seq<Variant>, games: Seq<(String, Game<Vcs>)>)
    requires
        games.len() == group_titles(es).len(),
        forall|x: int|
            0 <= x < games.len() ==> is_collapsed_game(
                (#[trigger] games[x]).1,
                group_titles(es)[x],
                es,
                group_of(es, group_titles(es)[x]),
            ),
    ensures
        crate::tree::games_hashes(games).to_multiset() == entries_hashes(es, es.len() as int).to_multiset(),
{
    lemma_games_hashes(games, es, games.len() as int);
    assert(games.take(games.len() as int) == games);
    lemma_collapse_keeps_dumps(es);
}

} // verus!
