//! Seeding the flag file from migration reports: every open question a
//! report lists becomes a flag, once.
use vstd::prelude::*;

use crate::flags::{Flag, FlagFile, FlagKind, lemma_next_flag_id, next_flag_id};
use crate::strings::{
    chars_of, find_from, is_alnum, is_ascii_alnum, lemma_find, lines_of, matches_at, find_in,
    owned, push_str, rfind, rfind_in, lemma_rfind, slice_of, starts_with, str_eq, string_from, contains_text,
    text_lines, views,
};

verus! {

broadcast use vstd::string::group_string_axioms;

/// What one import did.
#[derive(Clone, Copy, PartialEq, Eq, Structural, Debug)]
pub struct Stats {
    pub imported: usize,
    pub skipped_sections: usize,
    pub duplicates: usize,
}

/// The flag kind a report section files its items under.
pub open spec fn section_kind(section: Seq<char>) -> FlagKind {
    if section == "Near-miss titles left unmerged"@ {
        FlagKind::NearMissTitles
    } else if section == "Same-title families left separate (review candidates)"@ {
        FlagKind::ReviewCandidateFamilies
    } else if starts_with(section, "Leftover old entries"@) {
        FlagKind::Leftover
    } else if section == "Unknown name qualifiers"@ {
        FlagKind::UnknownQualifier
    } else if section == "Conflicting game fields left empty"@ {
        FlagKind::ConflictingField
    } else if starts_with(section, "Old hashes absent"@) {
        FlagKind::RetiredHash
    } else {
        FlagKind::Custom
    }
}

fn same_text(v: &Vec<char>, s: &str) -> (b: bool)
    ensures
        b == (v@ == s@),
{
    let w = chars_of(s);
    if w.len() != v.len() {
        return false;
    }
    let m = matches_at(v, &w, 0);
    assert(v@.subrange(0, w@.len() as int) == v@);
    m
}

fn begins_with(v: &Vec<char>, s: &str) -> (b: bool)
    ensures
        b == starts_with(v@, s@),
{
    let w = chars_of(s);
    let r = matches_at(v, &w, 0);
    assert(r ==> v@.take(w@.len() as int) == v@.subrange(0, w@.len() as int));
    r
}

/// The flag kind a report section files its items under.
pub fn kind_for(section: &str) -> (k: FlagKind)
    ensures
        k == section_kind(section@),
{
    let s = chars_of(section);
    if same_text(&s, "Near-miss titles left unmerged") {
        FlagKind::NearMissTitles
    } else if same_text(&s, "Same-title families left separate (review candidates)") {
        FlagKind::ReviewCandidateFamilies
    } else if begins_with(&s, "Leftover old entries") {
        FlagKind::Leftover
    } else if same_text(&s, "Unknown name qualifiers") {
        FlagKind::UnknownQualifier
    } else if same_text(&s, "Conflicting game fields left empty") {
        FlagKind::ConflictingField
    } else if begins_with(&s, "Old hashes absent") {
        FlagKind::RetiredHash
    } else {
        FlagKind::Custom
    }
}

/// The characters a `tree/slug` reference is made of.
pub open spec fn is_ref_char(c: char) -> bool {
    is_alnum(c) || c == '-' || c == '_' || c == '/'
}

/// Where the reference starting at `at` ends: the first character at or after
/// `at` that cannot be part of one, or the end of the text.
pub open spec fn ref_end(s: Seq<char>, at: int) -> int
    decreases s.len() - at,
{
    if at >= s.len() || at < 0 {
        s.len() as int
    } else if !is_ref_char(s[at]) {
        at
    } else {
        ref_end(s, at + 1)
    }
}

/// The references found after scanning `item` from `from` for `pat`
/// ("tree/"), added to `found` unless already there or bare.
pub open spec fn scan_refs(item: Seq<char>, pat: Seq<char>, from: int, found: Seq<Seq<char>>) -> Seq<
    Seq<char>,
>
    decreases item.len() + 1 - from,
{
    match find_from(item, pat, from) {
        None => found,
        Some(p) => {
            let cand = item.subrange(p, ref_end(item, p));
            let found2 = if cand.len() > pat.len() && !found.contains(cand) {
                found.push(cand)
            } else {
                found
            };
            if from <= p && pat.len() > 0 && p + pat.len() <= item.len() {
                scan_refs(item, pat, p + pat.len(), found2)
            } else {
                found2
            }
        },
    }
}

/// Every `tree/slug` reference in an item line, the Game Boy tree's first,
/// each once.
pub open spec fn item_subjects(item: Seq<char>) -> Seq<Seq<char>> {
    scan_refs(
        item,
        "vcs/"@,
        0,
        scan_refs(item, "gbc/"@, 0, scan_refs(item, "gb/"@, 0, Seq::empty())),
    )
}

proof fn lemma_ref_end(s: Seq<char>, at: int)
    requires
        0 <= at <= s.len(),
    ensures
        at <= ref_end(s, at) <= s.len(),
    decreases s.len() - at,
{
    if at < s.len() && is_ref_char(s[at]) {
        lemma_ref_end(s, at + 1);
    }
}

fn reference_end(v: &Vec<char>, at: usize) -> (e: usize)
    requires
        at <= v@.len(),
    ensures
        e == ref_end(v@, at as int),
{
    let mut e = at;
    while e < v.len() && (is_ascii_alnum(v[e]) || v[e] == '-' || v[e] == '_' || v[e] == '/')
        invariant
            at <= e <= v@.len(),
            ref_end(v@, at as int) == ref_end(v@, e as int),
        decreases v@.len() - e,
    {
        e = e + 1;
    }
    e
}

fn collect_refs(item: &Vec<char>, tree: &str, found: &mut Vec<String>)
    ensures
        views(final(found)@) == scan_refs(item@, tree@ + "/"@, 0, views(old(found)@)),
{
    let mut pat = chars_of(tree);
    pat.push('/');
    proof {
        reveal_strlit("/");
        assert(pat@ =~= tree@ + "/"@);
    }
    let mut from: usize = 0;
    let ghost f0 = views(found@);
    while from <= item.len()
        invariant
            pat@ == tree@ + "/"@,
            pat@.len() > 0,
            f0 == views(old(found)@),
            from <= item@.len() + 1,
            scan_refs(item@, pat@, 0, f0) == scan_refs(item@, pat@, from as int, views(found@)),
        decreases item@.len() + 1 - from,
    {
        proof {
            lemma_find(item@, pat@, from as int);
        }
        match find_in(item, &pat, from) {
            None => {
                return;
            },
            Some(p) => {
                proof {
                    lemma_ref_end(item@, p as int);
                }
                let end = reference_end(item, p);
                let cand_chars = slice_of(item, p, end);
                let cand = string_from(cand_chars.as_slice());
                let ghost before = views(found@);
                if cand_chars.len() > pat.len() && !contains_text(found, cand.as_str()) {
                    let ghost old_found = found@;
                    found.push(cand);
                    assert(views(found@) =~= views(old_found).push(cand@));
                }
                assert(scan_refs(item@, pat@, from as int, before) == scan_refs(
                    item@,
                    pat@,
                    p + pat@.len(),
                    views(found@),
                ));
                from = p + pat.len();
            },
        }
    }
    assert(find_from(item@, pat@, from as int) is None);
}

/// Every `tree/slug` reference in an item line, the Game Boy tree's first,
/// each once.
pub fn subjects(item: &str) -> (found: Vec<String>)
    ensures
        views(found@) == item_subjects(item@),
{
    let chars = chars_of(item);
    let mut found: Vec<String> = Vec::new();
    assert(views(found@) =~= Seq::<Seq<char>>::empty());
    proof {
        reveal_strlit("gb");
        reveal_strlit("gbc");
        reveal_strlit("vcs");
        reveal_strlit("gb/");
        reveal_strlit("gbc/");
        reveal_strlit("vcs/");
        reveal_strlit("/");
        assert("gb"@ + "/"@ =~= "gb/"@);
        assert("gbc"@ + "/"@ =~= "gbc/"@);
        assert("vcs"@ + "/"@ =~= "vcs/"@);
    }
    collect_refs(&chars, "gb", &mut found);
    collect_refs(&chars, "gbc", &mut found);
    collect_refs(&chars, "vcs", &mut found);
    found
}

/// The section name a `## ` heading line states: the heading without its
/// trailing " (count)".
pub open spec fn heading_name(heading: Seq<char>) -> Seq<char> {
    match rfind(heading, " ("@) {
        Some(k) => heading.take(k),
        None => heading,
    }
}

/// Sections that record completed actions rather than open questions.
pub open spec fn is_skip_section(name: Seq<char>) -> bool {
    name == "BIOS entries skipped"@ || name == "Pre-release families merged into their retail game"@
}

/// Reading a report line by line: the section in force, whether it is
/// skipped, how many skipped sections began, and the (section, item) pairs
/// that are open questions, in order.
pub open spec fn scan_report(lines: Seq<Seq<char>>) -> (Seq<char>, bool, nat, Seq<(Seq<char>, Seq<char>)>)
    decreases lines.len(),
{
    if lines.len() == 0 {
        (Seq::empty(), false, 0, Seq::empty())
    } else {
        let (section, skipping, skipped, items) = scan_report(lines.drop_last());
        let line = lines.last();
        if starts_with(line, "## "@) {
            let name = heading_name(line.skip(3));
            let skip = is_skip_section(name);
            (name, skip, if skip { skipped + 1 } else { skipped }, items)
        } else if starts_with(line, "- "@) && !skipping && section.len() > 0 {
            (section, skipping, skipped, items.push((section, line.skip(2))))
        } else {
            (section, skipping, skipped, items)
        }
    }
}

/// The open questions of a report text, as (section, item) pairs.
pub open spec fn report_items(text: Seq<char>) -> Seq<(Seq<char>, Seq<char>)> {
    scan_report(text_lines(text)).3
}

/// The note a flag for an item carries.
pub open spec fn item_note(section: Seq<char>, item: Seq<char>) -> Seq<char> {
    section + ": "@ + item
}

/// What a new flag states besides its id: kind, subjects and note.
pub type NewFlag = (FlagKind, Seq<Seq<char>>, Seq<char>);

pub open spec fn has_note(flags: Seq<Flag>, note: Seq<char>) -> bool {
    exists|i: int| 0 <= i < flags.len() && #[trigger] flags[i].note@ == note
}

/// Deduplicating the items against the notes already filed: the flags to
/// add, in order, and how many items were duplicates.
pub open spec fn fresh_flags(existing: Seq<Flag>, items: Seq<(Seq<char>, Seq<char>)>) -> (Seq<NewFlag>, nat)
    decreases items.len(),
{
    if items.len() == 0 {
        (Seq::empty(), 0)
    } else {
        let (added, dups) = fresh_flags(existing, items.drop_last());
        let (section, item) = items.last();
        let note = item_note(section, item);
        if has_note(existing, note) || exists|j: int| 0 <= j < added.len() && #[trigger] added[j].2 == note {
            (added, dups + 1)
        } else {
            (added.push((section_kind(section), item_subjects(item), note)), dups)
        }
    }
}

/// `f` is the flag with this id stating `n`.
pub open spec fn states(f: Flag, id: int, n: NewFlag) -> bool {
    &&& f.id == id
    &&& f.kind == n.0
    &&& views(f.subject@) == n.1
    &&& f.note@ == n.2
}

/// `after` is `before` followed by one flag per new flag, numbered on.
pub open spec fn appended(before: Seq<Flag>, after: Seq<Flag>, added: Seq<NewFlag>) -> bool {
    &&& after.len() == before.len() + added.len()
    &&& after.take(before.len() as int) == before
    &&& forall|j: int|
        0 <= j < added.len() ==> states(#[trigger] after[before.len() + j], next_flag_id(before) + j, added[j])
}

proof fn lemma_scan_report_bounds(lines: Seq<Seq<char>>)
    ensures
        scan_report(lines).2 + scan_report(lines).3.len() <= lines.len(),
    decreases lines.len(),
{
    if lines.len() > 0 {
        lemma_scan_report_bounds(lines.drop_last());
    }
}

proof fn lemma_fresh_bounds(existing: Seq<Flag>, items: Seq<(Seq<char>, Seq<char>)>)
    ensures
        fresh_flags(existing, items).0.len() + fresh_flags(existing, items).1 == items.len(),
    decreases items.len(),
{
    if items.len() > 0 {
        lemma_fresh_bounds(existing, items.drop_last());
    }
}

fn has_note_in(flags: &Vec<Flag>, note: &String) -> (b: bool)
    ensures
        b == has_note(flags@, note@),
{
    let mut i: usize = 0;
    while i < flags.len()
        invariant
            i <= flags@.len(),
            forall|k: int| 0 <= k < i ==> #[trigger] flags@[k].note@ != note@,
        decreases flags@.len() - i,
    {
        if str_eq(flags[i].note.as_str(), note.as_str()) {
            return true;
        }
        i = i + 1;
    }
    false
}

/// The section name a heading states.
fn section_name(heading: &Vec<char>) -> (name: String)
    ensures
        name@ == heading_name(heading@),
{
    let n = heading.len();
    assert(heading@.len() == n);
    let mut pat: Vec<char> = Vec::new();
    pat.push(' ');
    pat.push('(');
    proof {
        reveal_strlit(" (");
        assert(pat@ == " ("@);
        lemma_rfind(heading@, pat@);
    }
    let found = rfind_in(heading, &pat);
    match found {
        Some(k) => {
            assert(rfind(heading@, " ("@) == Some(k as int));
            let w = slice_of(heading, 0, k);
            assert(w@ == heading@.take(k as int));
            string_from(w.as_slice())
        },
        None => {
            assert(rfind(heading@, " ("@) is None);
            string_from(heading.as_slice())
        },
    }
}

/// Files every open question of a report text as a flag, unless a flag with
/// the same note is already filed; a skipped section's items are not
/// questions. Counts what it imported, skipped and found already filed.
pub fn import_report(file: &mut FlagFile, text: &str, stats: &mut Stats)
    requires
        next_flag_id(old(file).flags@) + report_items(text@).len() <= u32::MAX,
        old(stats).imported + text_lines(text@).len() <= usize::MAX,
        old(stats).skipped_sections + text_lines(text@).len() <= usize::MAX,
        old(stats).duplicates + text_lines(text@).len() <= usize::MAX,
    ensures
        appended(old(file).flags@, final(file).flags@, fresh_flags(old(file).flags@, report_items(text@)).0),
        final(stats).imported == old(stats).imported + fresh_flags(old(file).flags@, report_items(text@)).0.len(),
        final(stats).duplicates == old(stats).duplicates + fresh_flags(old(file).flags@, report_items(text@)).1,
        final(stats).skipped_sections == old(stats).skipped_sections + scan_report(text_lines(text@)).2,
{
    let lines = lines_of(text);
    let ghost ls = text_lines(text@);
    let ghost f0 = file.flags@;
    let ghost s0 = *stats;
    let mut section = String::new();
    let mut skipping = false;
    let mut i: usize = 0;
    proof {
        lemma_scan_report_bounds(ls);
        lemma_fresh_bounds(f0, report_items(text@));
        assert(ls.take(0) =~= Seq::<Seq<char>>::empty());
        assert(f0.take(f0.len() as int) == f0);
        lemma_next_flag_id(f0);
    }
    while i < lines.len()
        invariant
            views(lines@) == ls,
            ls == text_lines(text@),
            i <= ls.len(),
            section@ == scan_report(ls.take(i as int)).0,
            skipping == scan_report(ls.take(i as int)).1,
            stats.skipped_sections == s0.skipped_sections + scan_report(ls.take(i as int)).2,
            appended(f0, file.flags@, fresh_flags(f0, scan_report(ls.take(i as int)).3).0),
            stats.imported == s0.imported + fresh_flags(f0, scan_report(ls.take(i as int)).3).0.len(),
            stats.duplicates == s0.duplicates + fresh_flags(f0, scan_report(ls.take(i as int)).3).1,
            next_flag_id(file.flags@) == next_flag_id(f0) + fresh_flags(f0, scan_report(ls.take(i as int)).3).0.len(),
            next_flag_id(f0) + scan_report(ls).3.len() <= u32::MAX,
            s0.imported + ls.len() <= usize::MAX,
            s0.skipped_sections + ls.len() <= usize::MAX,
            s0.duplicates + ls.len() <= usize::MAX,
        decreases ls.len() - i,
    {
        let ghost pre = ls.take(i as int);
        let ghost post = ls.take(i + 1);
        proof {
            assert(post.drop_last() == pre);
            assert(post.last() == ls[i as int]);
            lemma_scan_report_bounds(post);
            lemma_scan_prefix(ls, i + 1);
            lemma_fresh_bounds(f0, scan_report(pre).3);
            lemma_fresh_bounds(f0, scan_report(post).3);
        }
        let line = chars_of(lines[i].as_str());
        assert(line@ == ls[i as int]);
        let open_section = chars_of(section.as_str()).len() > 0;
        if begins_with(&line, "## ") {
            proof {
                reveal_strlit("## ");
            }
            let heading = slice_of(&line, 3, line.len());
            assert(heading@ == line@.skip(3));
            section = section_name(&heading);
            let name = chars_of(section.as_str());
            skipping = same_text(&name, "BIOS entries skipped")
                || same_text(&name, "Pre-release families merged into their retail game");
            if skipping {
                stats.skipped_sections = stats.skipped_sections + 1;
            }
        } else if begins_with(&line, "- ") && !skipping && open_section {
            proof {
                reveal_strlit("- ");
            }
            let item_chars = slice_of(&line, 2, line.len());
            assert(item_chars@ == line@.skip(2));
            let item = string_from(item_chars.as_slice());
            let mut note = section.clone();
            push_str(&mut note, ": ");
            push_str(&mut note, item.as_str());
            let ghost items_pre = scan_report(pre).3;
            let ghost items_post = scan_report(post).3;
            let ghost added_pre = fresh_flags(f0, items_pre).0;
            proof {
                assert(section@ == scan_report(pre).0);
                assert(items_post == items_pre.push((section@, item@)));
                assert(items_post.drop_last() == items_pre);
                assert(note@ == item_note(section@, item@));
            }
            if has_note_in(&file.flags, &note) {
                proof {
                    let k = choose|k: int| 0 <= k < file.flags@.len() && #[trigger] file.flags@[k].note@ == note@;
                    if k < f0.len() {
                        assert(file.flags@.take(f0.len() as int)[k] == file.flags@[k]);
                        assert(has_note(f0, note@));
                    } else {
                        let j = k - f0.len();
                        assert(states(file.flags@[f0.len() + j], next_flag_id(f0) + j, added_pre[j]));
                        assert(added_pre[j].2 == note@);
                    }
                }
                stats.duplicates = stats.duplicates + 1;
            } else {
                proof {
                    assert(!has_note(f0, note@)) by {
                        if has_note(f0, note@) {
                            let k = choose|k: int| 0 <= k < f0.len() && #[trigger] f0[k].note@ == note@;
                            assert(file.flags@.take(f0.len() as int)[k] == f0[k]);
                            assert(file.flags@[k].note@ == note@);
                        }
                    }
                    assert(!exists|j: int| 0 <= j < added_pre.len() && #[trigger] added_pre[j].2 == note@) by {
                        if exists|j: int| 0 <= j < added_pre.len() && #[trigger] added_pre[j].2 == note@ {
                            let j = choose|j: int| 0 <= j < added_pre.len() && #[trigger] added_pre[j].2 == note@;
                            assert(states(file.flags@[f0.len() + j], next_flag_id(f0) + j, added_pre[j]));
                        }
                    }
                    lemma_next_flag_id(file.flags@);
                }
                let kind = kind_for(section.as_str());
                let subject = subjects(item.as_str());
                let id = file.next_id();
                let ghost fb = file.flags@;
                file.flags.push(Flag { id, kind, subject, note });
                stats.imported = stats.imported + 1;
                proof {
                    let added_post = fresh_flags(f0, items_post).0;
                    assert(added_post == added_pre.push((section_kind(section@), item_subjects(item@), note@)));
                    assert(file.flags@.drop_last() == fb);
                    assert(file.flags@.take(f0.len() as int) == f0) by {
                        assert(file.flags@.take(f0.len() as int) =~= fb.take(f0.len() as int));
                    }
                    assert forall|j: int| 0 <= j < added_post.len() implies states(
                        #[trigger] file.flags@[f0.len() + j],
                        next_flag_id(f0) + j,
                        added_post[j],
                    ) by {
                        if j < added_pre.len() {
                            assert(file.flags@[f0.len() + j] == fb[f0.len() + j]);
                        }
                    }
                    assert(next_flag_id(file.flags@) == id + 1) by {
                        lemma_next_flag_id(fb);
                    }
                }
            }
        } else {
            proof {
                assert(scan_report(post).3 == scan_report(pre).3);
            }
        }
        i = i + 1;
    }
    assert(ls.take(ls.len() as int) == ls);
}

proof fn lemma_scan_prefix(ls: Seq<Seq<char>>, k: int)
    requires
        0 <= k <= ls.len(),
    ensures
        scan_report(ls.take(k)).3.len() <= scan_report(ls).3.len(),
        scan_report(ls.take(k)).2 + scan_report(ls.take(k)).3.len() <= k,
    decreases ls.len() - k,
{
    lemma_scan_report_bounds(ls.take(k));
    assert(ls.take(k).len() == k);
    if k < ls.len() {
        lemma_scan_prefix(ls, k + 1);
        assert(ls.take(k + 1).drop_last() == ls.take(k));
    } else {
        assert(ls.take(k) == ls);
    }
}

proof fn lemma_fresh_covers(existing: Seq<Flag>, items: Seq<(Seq<char>, Seq<char>)>)
    ensures
        forall|k: int|
            0 <= k < items.len() ==> has_note(existing, item_note(#[trigger] items[k].0, items[k].1))
                || exists|j: int|
                0 <= j < fresh_flags(existing, items).0.len() && #[trigger] fresh_flags(existing, items).0[j].2
                    == item_note(items[k].0, items[k].1),
    decreases items.len(),
{
    if items.len() > 0 {
        let pre = items.drop_last();
        lemma_fresh_covers(existing, pre);
        let added_pre = fresh_flags(existing, pre).0;
        let added = fresh_flags(existing, items).0;
        assert(added.take(added_pre.len() as int) == added_pre);
        assert forall|k: int| 0 <= k < items.len() implies has_note(existing, item_note(#[trigger] items[k].0, items[k].1))
            || exists|j: int| 0 <= j < added.len() && #[trigger] added[j].2 == item_note(items[k].0, items[k].1) by {
            if k < pre.len() {
                assert(items[k] == pre[k]);
                if !has_note(existing, item_note(items[k].0, items[k].1)) {
                    let j = choose|j: int| 0 <= j < added_pre.len() && #[trigger] added_pre[j].2 == item_note(pre[k].0, pre[k].1);
                    assert(added[j] == added_pre[j]);
                }
            } else {
                let note = item_note(items.last().0, items.last().1);
                if !has_note(existing, note) && !exists|j: int| 0 <= j < added_pre.len() && #[trigger] added_pre[j].2 == note {
                    assert(added[added_pre.len() as int].2 == note);
                } else if !has_note(existing, note) {
                    let j = choose|j: int| 0 <= j < added_pre.len() && #[trigger] added_pre[j].2 == note;
                    assert(added[j] == added_pre[j]);
                }
            }
        }
    }
}

proof fn lemma_all_filed(existing: Seq<Flag>, items: Seq<(Seq<char>, Seq<char>)>)
    requires
        forall|k: int| 0 <= k < items.len() ==> has_note(existing, item_note(#[trigger] items[k].0, items[k].1)),
    ensures
        fresh_flags(existing, items).0.len() == 0,
        fresh_flags(existing, items).1 == items.len(),
    decreases items.len(),
{
    if items.len() > 0 {
        let pre = items.drop_last();
        assert forall|k: int| 0 <= k < pre.len() implies has_note(existing, item_note(#[trigger] pre[k].0, pre[k].1)) by {
            assert(pre[k] == items[k]);
        }
        lemma_all_filed(existing, pre);
        assert(has_note(existing, item_note(items[items.len() - 1].0, items[items.len() - 1].1)));
    }
}

/// Importing a report is idempotent: once its items are filed, importing the
/// same report again files nothing and counts every item as a duplicate.
pub proof fn lemma_reimport_files_nothing(before: Seq<Flag>, after: Seq<Flag>, text: Seq<char>)
    requires
        appended(before, after, fresh_flags(before, report_items(text)).0),
    ensures
        fresh_flags(after, report_items(text)).0.len() == 0,
        fresh_flags(after, report_items(text)).1 == report_items(text).len(),
{
    let items = report_items(text);
    let added = fresh_flags(before, items).0;
    lemma_fresh_covers(before, items);
    assert forall|k: int| 0 <= k < items.len() implies has_note(after, item_note(#[trigger] items[k].0, items[k].1)) by {
        let note = item_note(items[k].0, items[k].1);
        if has_note(before, note) {
            let i = choose|i: int| 0 <= i < before.len() && #[trigger] before[i].note@ == note;
            assert(after.take(before.len() as int)[i] == after[i]);
            assert(after[i].note@ == note);
        } else {
            let j = choose|j: int| 0 <= j < added.len() && #[trigger] added[j].2 == note;
            assert(states(after[before.len() + j], next_flag_id(before) + j, added[j]));
            assert(after[before.len() + j].note@ == note);
        }
    }
    lemma_all_filed(after, items);
}

} // verus!
