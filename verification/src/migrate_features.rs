//! Manifest text migration: the Game Boy `features` list splits into
//! `enhancements` (console variants the software exploits) and `peripherals`
//! (devices it is played with), and the VCS `controllers` key is renamed to
//! `peripherals`. Both work on the manifest text line by line, so everything
//! else in a file stays exactly as it was.
use vstd::prelude::*;

use crate::strings::{
    chars_of, debug_quoted, debug_str, free_of, is_white, is_whitespace, joined_lines, lemma_joined_concat,
    lemma_text_lines_joined, lemma_text_lines_plain, lemma_trim_start_after_blank, lines_of, owned,
    plain_line, push_str, slice_of, string_from, text_lines, trim, trim_start, trimmed, views,
};

verus! {

broadcast use vstd::string::group_string_axioms;

/// What a features migration did.
#[derive(Clone, Copy, PartialEq, Eq, Structural, Debug)]
pub struct Stats {
    pub gb_files: usize,
    pub gbc_files: usize,
    pub vcs_files: usize,
    pub super_game_boy: usize,
    pub game_boy_color: usize,
    pub link_cable: usize,
    pub printer: usize,
    pub cleared_lists: usize,
    pub controller_lists: usize,
}

/// Where a `features` entry lands under the split.
#[derive(Clone, Copy, PartialEq, Eq, Debug)]
pub enum Split {
    Enhancement(&'static str),
    Peripheral(&'static str),
}

/// Where a `features` entry lands: `(true, name)` for an enhancement,
/// `(false, name)` for a peripheral.
pub open spec fn term_split(term: Seq<char>) -> Option<(bool, Seq<char>)> {
    if term == "SuperGameBoyEnhanced"@ {
        Some((true, "SuperGameBoy"@))
    } else if term == "GameBoyColorEnhanced"@ {
        Some((true, "GameBoyColor"@))
    } else if term == "GameLink"@ {
        Some((false, "LinkCable"@))
    } else if term == "Printer"@ {
        Some((false, "Printer"@))
    } else {
        None
    }
}

pub open spec fn split_view(s: Split) -> (bool, Seq<char>) {
    match s {
        Split::Enhancement(n) => (true, n@),
        Split::Peripheral(n) => (false, n@),
    }
}

fn text_is(v: &Vec<char>, s: &str) -> (b: bool)
    ensures
        b == (v@ == s@),
{
    let w = chars_of(s);
    if w.len() != v.len() {
        return false;
    }
    let m = crate::strings::matches_at(v, &w, 0);
    assert(v@.subrange(0, w@.len() as int) == v@);
    m
}

/// Where a `features` entry lands under the split, if it is a known one.
pub fn split_term(term: &str) -> (r: Option<Split>)
    ensures
        match r {
            Some(s) => term_split(term@) == Some(split_view(s)),
            None => term_split(term@) is None,
        },
{
    let t = chars_of(term);
    if text_is(&t, "SuperGameBoyEnhanced") {
        Some(Split::Enhancement("SuperGameBoy"))
    } else if text_is(&t, "GameBoyColorEnhanced") {
        Some(Split::Enhancement("GameBoyColor"))
    } else if text_is(&t, "GameLink") {
        Some(Split::Peripheral("LinkCable"))
    } else if text_is(&t, "Printer") {
        Some(Split::Peripheral("Printer"))
    } else {
        None
    }
}

/// Counts a split moves, beside the counts already made: lists cleared,
/// Super Game Boy and Game Boy Color enhancements, link cables, printers.
pub type Tally = (nat, nat, nat, nat, nat);

pub open spec fn bump(t: Tally, enhancement: bool, name: Seq<char>) -> Tally {
    if enhancement {
        if name == "SuperGameBoy"@ {
            (t.0, t.1 + 1, t.2, t.3, t.4)
        } else {
            (t.0, t.1, t.2 + 1, t.3, t.4)
        }
    } else {
        if name == "LinkCable"@ {
            (t.0, t.1, t.2, t.3 + 1, t.4)
        } else {
            (t.0, t.1, t.2, t.3, t.4 + 1)
        }
    }
}

/// Sorting a list's terms in order: the enhancement and peripheral names, or
/// the error for the first term that is neither, with the counts made on
/// the way.
pub open spec fn sorted_terms(terms: Seq<Seq<char>>, t: Tally) -> (
    Result<(Seq<Seq<char>>, Seq<Seq<char>>), Seq<char>>,
    Tally,
)
    decreases terms.len(),
{
    if terms.len() == 0 {
        (Ok((Seq::empty(), Seq::empty())), t)
    } else {
        let (r, t1) = sorted_terms(terms.drop_last(), t);
        match r {
            Err(e) => (Err(e), t1),
            Ok((enh, per)) => match term_split(terms.last()) {
                None => (Err("unknown feature "@ + debug_str(terms.last())), t1),
                Some((true, name)) => (Ok((enh.push(name), per)), bump(t1, true, name)),
                Some((false, name)) => (Ok((enh, per.push(name))), bump(t1, false, name)),
            },
        }
    }
}

/// `str::trim_end_matches(',')`: every trailing comma removed.
pub open spec fn strip_commas(s: Seq<char>) -> Seq<char>
    decreases s.len(),
{
    if s.len() > 0 && s.last() == ',' {
        strip_commas(s.drop_last())
    } else {
        s
    }
}

/// The first line at or after `j` that closes a list.
pub open spec fn list_close(lines: Seq<Seq<char>>, j: int) -> Option<int>
    decreases lines.len() - j,
{
    if j < 0 || j >= lines.len() {
        None
    } else if trim(lines[j]) == "],"@ {
        Some(j)
    } else {
        list_close(lines, j + 1)
    }
}

/// The terms a list states on the lines between its opening and closing.
pub open spec fn list_terms(lines: Seq<Seq<char>>, lo: int, hi: int) -> Seq<Seq<char>> {
    lines.subrange(lo, hi).map_values(|l: Seq<char>| strip_commas(trim(l)))
}

pub open spec fn entries_text(indent: Seq<char>, terms: Seq<Seq<char>>) -> Seq<char>
    decreases terms.len(),
{
    if terms.len() == 0 {
        Seq::empty()
    } else {
        entries_text(indent, terms.drop_last()) + indent + "    "@ + terms.last() + ",\n"@
    }
}

/// A list written under a key, as the canonical manifest form writes it.
pub open spec fn list_text(indent: Seq<char>, key: Seq<char>, terms: Seq<Seq<char>>) -> Seq<char> {
    if terms.len() == 0 {
        indent + key + ": [],\n"@
    } else {
        indent + key + ": [\n"@ + entries_text(indent, terms) + indent + "],\n"@
    }
}

/// What a split list becomes: the enhancements, stated even when empty, and
/// the peripherals where there are any — a release that drove no peripheral
/// never stated one.
pub open spec fn split_text(indent: Seq<char>, enh: Seq<Seq<char>>, per: Seq<Seq<char>>) -> Seq<char> {
    list_text(indent, "enhancements"@, enh) + if per.len() > 0 {
        list_text(indent, "peripherals"@, per)
    } else {
        Seq::empty()
    }
}

/// The whitespace a line starts with.
pub open spec fn leading(line: Seq<char>) -> Seq<char> {
    line.take(line.len() - trim_start(line).len())
}

/// Splitting from line `i` on, with the text written so far, whether a list
/// was split, and the counts made: the rewritten text (`None` where no list
/// was found), or the first error, with the counts made.
pub open spec fn split_run(lines: Seq<Seq<char>>, i: int, out: Seq<char>, any: bool, t: Tally) -> (
    Result<Option<Seq<char>>, Seq<char>>,
    Tally,
)
    decreases lines.len() - i,
{
    if i < 0 || i >= lines.len() {
        (Ok(if any { Some(out) } else { None }), t)
    } else {
        let line = lines[i];
        let tr = trim_start(line);
        if tr == "features: [],"@ {
            split_run(
                lines,
                i + 1,
                out + split_text(leading(line), Seq::empty(), Seq::empty()),
                true,
                (t.0 + 1, t.1, t.2, t.3, t.4),
            )
        } else if tr == "features: ["@ {
            match list_close(lines, i + 1) {
                None => (Err("unterminated features list"@), t),
                Some(k) => if i < k < lines.len() {
                    match sorted_terms(list_terms(lines, i + 1, k), t) {
                        (Err(e), t2) => (Err(e), t2),
                        (Ok((enh, per)), t2) => split_run(
                            lines,
                            k + 1,
                            out + split_text(leading(line), enh, per),
                            true,
                            t2,
                        ),
                    }
                } else {
                    (Ok(None), t)
                },
            }
        } else {
            split_run(lines, i + 1, out + line + "\n"@, any, t)
        }
    }
}

/// The outcome of splitting a manifest text, and the counts it made.
pub open spec fn split_outcome(text: Seq<char>) -> (Result<Option<Seq<char>>, Seq<char>>, Tally) {
    split_run(text_lines(text), 0, Seq::empty(), false, (0, 0, 0, 0, 0))
}

/// Writes a list under a key, as the canonical manifest form writes it.
pub fn write_list(out: &mut String, indent: &str, key: &str, terms: &Vec<&'static str>)
    ensures
        final(out)@ == old(out)@ + list_text(indent@, key@, terms@.map_values(|t: &'static str| t@)),
{
    let ghost ts = terms@.map_values(|t: &'static str| t@);
    if terms.len() == 0 {
        push_str(out, indent);
        push_str(out, key);
        push_str(out, ": [],\n");
        return;
    }
    push_str(out, indent);
    push_str(out, key);
    push_str(out, ": [\n");
    let ghost head = out@;
    let mut i: usize = 0;
    assert(ts.take(0) =~= Seq::<Seq<char>>::empty());
    while i < terms.len()
        invariant
            i <= terms@.len(),
            ts == terms@.map_values(|t: &'static str| t@),
            out@ == head + entries_text(indent@, ts.take(i as int)),
        decreases terms@.len() - i,
    {
        assert(ts.take(i + 1).drop_last() == ts.take(i as int));
        assert(ts.take(i + 1).last() == terms@[i as int]@);
        push_str(out, indent);
        push_str(out, "    ");
        push_str(out, terms[i]);
        push_str(out, ",\n");
        i = i + 1;
    }
    assert(ts.take(terms@.len() as int) == ts);
    push_str(out, indent);
    push_str(out, "],\n");
}

/// The whitespace a line starts with, and the rest of it.
fn split_indent(line: &Vec<char>) -> (r: (Vec<char>, Vec<char>))
    ensures
        r.0@ == leading(line@),
        r.1@ == trim_start(line@),
        r.0@ + r.1@ == line@,
{
    let mut lo: usize = 0;
    assert(line@.skip(0) == line@);
    while lo < line.len() && is_white(line[lo])
        invariant
            lo <= line@.len(),
            trim_start(line@) == trim_start(line@.skip(lo as int)),
        decreases line@.len() - lo,
    {
        assert(line@.skip(lo as int).drop_first() == line@.skip(lo + 1));
        lo = lo + 1;
    }
    assert(trim_start(line@.skip(lo as int)) == line@.skip(lo as int)) by {
        if lo < line@.len() {
            assert(line@.skip(lo as int)[0] == line@[lo as int]);
        }
    }
    let head = slice_of(line, 0, lo);
    let rest = slice_of(line, lo, line.len());
    assert(rest@ == line@.skip(lo as int));
    assert(head@ + rest@ =~= line@);
    (head, rest)
}

fn without_commas(v: &Vec<char>) -> (r: Vec<char>)
    ensures
        r@ == strip_commas(v@),
{
    let mut hi = v.len();
    assert(v@.subrange(0, hi as int) == v@);
    while hi > 0 && v[hi - 1] == ','
        invariant
            hi <= v@.len(),
            strip_commas(v@) == strip_commas(v@.subrange(0, hi as int)),
        decreases hi,
    {
        assert(v@.subrange(0, hi as int).drop_last() == v@.subrange(0, hi - 1));
        hi = hi - 1;
    }
    let r = slice_of(v, 0, hi);
    assert(strip_commas(r@) == r@) by {
        if r@.len() > 0 {
            assert(r@.last() == v@[hi - 1]);
        }
    }
    r
}

proof fn lemma_sorted_terms_bound(terms: Seq<Seq<char>>, t: Tally)
    ensures
        ({
            let t2 = sorted_terms(terms, t).1;
            &&& t2.0 == t.0
            &&& t2.1 + t2.2 + t2.3 + t2.4 <= t.1 + t.2 + t.3 + t.4 + terms.len()
            &&& t.1 <= t2.1 && t.2 <= t2.2 && t.3 <= t2.3 && t.4 <= t2.4
        }),
    decreases terms.len(),
{
    if terms.len() > 0 {
        lemma_sorted_terms_bound(terms.drop_last(), t);
    }
}

proof fn lemma_list_close(lines: Seq<Seq<char>>, j: int)
    ensures
        list_close(lines, j) matches Some(k) ==> j <= k < lines.len() && trim(lines[k]) == "],"@,
    decreases lines.len() - j,
{
    if 0 <= j < lines.len() && trim(lines[j]) != "],"@ {
        lemma_list_close(lines, j + 1);
    }
}

/// Splits every `features` list of a manifest text into `enhancements` and
/// `peripherals`. `Ok(None)` where the text states no `features` list, so an
/// untouched file stays untouched; an unknown term or an unterminated list
/// is an error. Counts what it moved, up to an error.
pub fn split_features(text: &str, stats: &mut Stats) -> (r: Result<Option<String>, String>)
    requires
        old(stats).cleared_lists + text_lines(text@).len() <= usize::MAX,
        old(stats).super_game_boy + text_lines(text@).len() <= usize::MAX,
        old(stats).game_boy_color + text_lines(text@).len() <= usize::MAX,
        old(stats).link_cable + text_lines(text@).len() <= usize::MAX,
        old(stats).printer + text_lines(text@).len() <= usize::MAX,
    ensures
        match (r, split_outcome(text@).0) {
            (Ok(Some(s)), Ok(Some(t))) => s@ == t,
            (Ok(None), Ok(None)) => true,
            (Err(e), Err(m)) => e@ == m,
            _ => false,
        },
        final(stats).cleared_lists == old(stats).cleared_lists + split_outcome(text@).1.0,
        final(stats).super_game_boy == old(stats).super_game_boy + split_outcome(text@).1.1,
        final(stats).game_boy_color == old(stats).game_boy_color + split_outcome(text@).1.2,
        final(stats).link_cable == old(stats).link_cable + split_outcome(text@).1.3,
        final(stats).printer == old(stats).printer + split_outcome(text@).1.4,
        final(stats).gb_files == old(stats).gb_files,
        final(stats).gbc_files == old(stats).gbc_files,
        final(stats).vcs_files == old(stats).vcs_files,
        final(stats).controller_lists == old(stats).controller_lists,
{
    let lines = lines_of(text);
    let ghost ls = text_lines(text@);
    let ghost s0 = *stats;
    let mut out = String::new();
    let mut any = false;
    let mut i: usize = 0;
    let n = lines.len();
    while i < n
        invariant
            views(lines@) == ls,
            n == ls.len(),
            i <= n + 1,
            split_outcome(text@) == split_run(
                ls,
                i as int,
                out@,
                any,
                (
                    (stats.cleared_lists - s0.cleared_lists) as nat,
                    (stats.super_game_boy - s0.super_game_boy) as nat,
                    (stats.game_boy_color - s0.game_boy_color) as nat,
                    (stats.link_cable - s0.link_cable) as nat,
                    (stats.printer - s0.printer) as nat,
                ),
            ),
            s0.cleared_lists <= stats.cleared_lists,
            s0.super_game_boy <= stats.super_game_boy,
            s0.game_boy_color <= stats.game_boy_color,
            s0.link_cable <= stats.link_cable,
            s0.printer <= stats.printer,
            (stats.cleared_lists - s0.cleared_lists) + (stats.super_game_boy - s0.super_game_boy)
                + (stats.game_boy_color - s0.game_boy_color) + (stats.link_cable - s0.link_cable)
                + (stats.printer - s0.printer) <= i,
            s0.cleared_lists + ls.len() <= usize::MAX,
            s0.super_game_boy + ls.len() <= usize::MAX,
            s0.game_boy_color + ls.len() <= usize::MAX,
            s0.link_cable + ls.len() <= usize::MAX,
            s0.printer + ls.len() <= usize::MAX,
            stats.gb_files == s0.gb_files && stats.gbc_files == s0.gbc_files,
            stats.vcs_files == s0.vcs_files && stats.controller_lists == s0.controller_lists,
            s0 == *old(stats),
        decreases n + 1 - i,
    {
        let line = chars_of(lines[i].as_str());
        assert(line@ == ls[i as int]);
        let (indent_chars, tr) = split_indent(&line);
        let indent = string_from(indent_chars.as_slice());
        proof {
            reveal_strlit("features: [],");
            reveal_strlit("features: [");
        }
        if text_is(&tr, "features: [],") {
            stats.cleared_lists = stats.cleared_lists + 1;
            let empty: Vec<&'static str> = Vec::new();
            assert(empty@.map_values(|t: &'static str| t@) =~= Seq::<Seq<char>>::empty());
            write_list(&mut out, indent.as_str(), "enhancements", &empty);
            proof {
                reveal_strlit("enhancements");
                assert(split_text(leading(ls[i as int]), Seq::empty(), Seq::empty()) == list_text(
                    leading(ls[i as int]),
                    "enhancements"@,
                    Seq::empty(),
                ) + Seq::<char>::empty());
            }
            assert(split_outcome(text@) == split_run(ls, i + 1, out@, true, (
                (stats.cleared_lists - s0.cleared_lists) as nat,
                (stats.super_game_boy - s0.super_game_boy) as nat,
                (stats.game_boy_color - s0.game_boy_color) as nat,
                (stats.link_cable - s0.link_cable) as nat,
                (stats.printer - s0.printer) as nat,
            )));
            any = true;
            i = i + 1;
        } else if text_is(&tr, "features: [") {
            // The list's terms, up to the line that closes it.
            let mut terms: Vec<Vec<char>> = Vec::new();
            let mut j: usize = i + 1;
            proof {
                lemma_list_close(ls, i + 1);
            }
            let ghost t_here: Tally = (
                (stats.cleared_lists - s0.cleared_lists) as nat,
                (stats.super_game_boy - s0.super_game_boy) as nat,
                (stats.game_boy_color - s0.game_boy_color) as nat,
                (stats.link_cable - s0.link_cable) as nat,
                (stats.printer - s0.printer) as nat,
            );
            assert(trim_start(ls[i as int]) == "features: ["@);
            loop
                invariant
                    views(lines@) == ls,
                    n == ls.len(),
                    i < j <= n,
                    trim_start(ls[i as int]) == "features: ["@,
                    split_outcome(text@) == split_run(ls, i as int, out@, any, t_here),
                    t_here == (
                        (stats.cleared_lists - s0.cleared_lists) as nat,
                        (stats.super_game_boy - s0.super_game_boy) as nat,
                        (stats.game_boy_color - s0.game_boy_color) as nat,
                        (stats.link_cable - s0.link_cable) as nat,
                        (stats.printer - s0.printer) as nat,
                    ),
                    s0.cleared_lists <= stats.cleared_lists,
                    s0.super_game_boy <= stats.super_game_boy,
                    s0.game_boy_color <= stats.game_boy_color,
                    s0.link_cable <= stats.link_cable,
                    s0.printer <= stats.printer,
                    stats.gb_files == s0.gb_files && stats.gbc_files == s0.gbc_files,
                    stats.vcs_files == s0.vcs_files && stats.controller_lists == s0.controller_lists,
                    s0 == *old(stats),
                    list_close(ls, i + 1) == list_close(ls, j as int),
                    terms@.map_values(|v: Vec<char>| v@) == list_terms(ls, i + 1, j as int),
                ensures
                    i < j < n,
                    list_close(ls, j as int) == Some(j as int),
                    list_close(ls, i + 1) == list_close(ls, j as int),
                    terms@.map_values(|v: Vec<char>| v@) == list_terms(ls, i + 1, j as int),
                decreases n - j,
            {
                if j >= n {
                    proof {
                        reveal_strlit("features: [],");
                        reveal_strlit("features: [");
                    }
                    assert(list_close(ls, j as int) is None);
                    assert(trim_start(ls[i as int]) != "features: [],"@);
                    return Err(owned("unterminated features list"));
                }
                let entry_line = chars_of(lines[j].as_str());
                assert(entry_line@ == ls[j as int]);
                let entry = trimmed(&entry_line);
                if text_is(&entry, "],") {
                    break;
                }
                let ghost before = terms@.map_values(|v: Vec<char>| v@);
                terms.push(without_commas(&entry));
                assert(terms@.map_values(|v: Vec<char>| v@) =~= before.push(strip_commas(trim(ls[j as int]))));
                assert(list_terms(ls, i + 1, j + 1) =~= list_terms(ls, i + 1, j as int).push(
                    strip_commas(trim(ls[j as int])),
                ));
                j = j + 1;
            }
            assert(list_close(ls, i + 1) == Some(j as int));
            let ghost all_terms = list_terms(ls, i + 1, j as int);
            let ghost t_before: Tally = (
                (stats.cleared_lists - s0.cleared_lists) as nat,
                (stats.super_game_boy - s0.super_game_boy) as nat,
                (stats.game_boy_color - s0.game_boy_color) as nat,
                (stats.link_cable - s0.link_cable) as nat,
                (stats.printer - s0.printer) as nat,
            );
            proof {
                lemma_sorted_terms_bound(all_terms, t_before);
            }
            // Each term lands in its list, in order.
            let mut enhancements: Vec<&'static str> = Vec::new();
            let mut peripherals: Vec<&'static str> = Vec::new();
            let mut q: usize = 0;
            assert(all_terms.take(0) =~= Seq::<Seq<char>>::empty());
            assert(enhancements@.map_values(|t: &'static str| t@) =~= Seq::<Seq<char>>::empty());
            assert(peripherals@.map_values(|t: &'static str| t@) =~= Seq::<Seq<char>>::empty());
            while q < terms.len()
                invariant
                    q <= terms@.len(),
                    i < j < n,
                    n == ls.len(),
                    trim_start(ls[i as int]) == "features: ["@,
                    list_close(ls, i + 1) == Some(j as int),
                    all_terms == list_terms(ls, i + 1, j as int),
                    split_outcome(text@) == split_run(ls, i as int, out@, any, t_before),
                    terms@.map_values(|v: Vec<char>| v@) == all_terms,
                    all_terms.len() <= ls.len(),
                    sorted_terms(all_terms.take(q as int), t_before) == (
                        Ok::<(Seq<Seq<char>>, Seq<Seq<char>>), Seq<char>>((
                            enhancements@.map_values(|t: &'static str| t@),
                            peripherals@.map_values(|t: &'static str| t@),
                        )),
                        (
                            (stats.cleared_lists - s0.cleared_lists) as nat,
                            (stats.super_game_boy - s0.super_game_boy) as nat,
                            (stats.game_boy_color - s0.game_boy_color) as nat,
                            (stats.link_cable - s0.link_cable) as nat,
                            (stats.printer - s0.printer) as nat,
                        ),
                    ),
                    s0.cleared_lists <= stats.cleared_lists,
                    s0.super_game_boy <= stats.super_game_boy,
                    s0.game_boy_color <= stats.game_boy_color,
                    s0.link_cable <= stats.link_cable,
                    s0.printer <= stats.printer,
                    (stats.super_game_boy - s0.super_game_boy) + (stats.game_boy_color - s0.game_boy_color)
                        + (stats.link_cable - s0.link_cable) + (stats.printer - s0.printer) <= t_before.1
                        + t_before.2 + t_before.3 + t_before.4 + q,
                    t_before.0 + t_before.1 + t_before.2 + t_before.3 + t_before.4 <= i,
                    i + all_terms.len() < ls.len(),
                    s0.super_game_boy + ls.len() <= usize::MAX,
                    s0.game_boy_color + ls.len() <= usize::MAX,
                    s0.link_cable + ls.len() <= usize::MAX,
                    s0.printer + ls.len() <= usize::MAX,
                    stats.cleared_lists == s0.cleared_lists + t_before.0,
                    stats.gb_files == s0.gb_files && stats.gbc_files == s0.gbc_files,
                    stats.vcs_files == s0.vcs_files && stats.controller_lists == s0.controller_lists,
                    s0 == *old(stats),
                decreases terms@.len() - q,
            {
                let ghost pre = all_terms.take(q as int);
                assert(all_terms.take(q + 1).drop_last() == pre);
                assert(all_terms.take(q + 1).last() == terms@[q as int]@);
                let term = string_from(terms[q].as_slice());
                let ghost eb = enhancements@;
                let ghost pb = peripherals@;
                match split_term(term.as_str()) {
                    None => {
                        let mut msg = owned("unknown feature ");
                        let quoted = debug_quoted(term.as_str());
                        push_str(&mut msg, quoted.as_str());
                        proof {
                            reveal_strlit("features: [],");
                            reveal_strlit("features: [");
                            assert(trim_start(ls[i as int]) != "features: [],"@);
                            assert(list_close(ls, i + 1) == Some(j as int));
                            assert(all_terms.take(all_terms.len() as int) == all_terms);
                            lemma_sorted_prefix_err(all_terms, t_before, q + 1);
                        }
                        return Err(msg);
                    },
                    Some(Split::Enhancement(name)) => {
                        if text_is(&chars_of(name), "SuperGameBoy") {
                            stats.super_game_boy = stats.super_game_boy + 1;
                        } else {
                            stats.game_boy_color = stats.game_boy_color + 1;
                        }
                        enhancements.push(name);
                        assert(enhancements@.map_values(|t: &'static str| t@) =~= eb.map_values(
                            |t: &'static str| t@,
                        ).push(name@));
                    },
                    Some(Split::Peripheral(name)) => {
                        if text_is(&chars_of(name), "LinkCable") {
                            stats.link_cable = stats.link_cable + 1;
                        } else {
                            stats.printer = stats.printer + 1;
                        }
                        peripherals.push(name);
                        assert(peripherals@.map_values(|t: &'static str| t@) =~= pb.map_values(
                            |t: &'static str| t@,
                        ).push(name@));
                    },
                }
                q = q + 1;
            }
            assert(all_terms.take(all_terms.len() as int) == all_terms);
            let ghost out0 = out@;
            let ghost enh = enhancements@.map_values(|t: &'static str| t@);
            let ghost per = peripherals@.map_values(|t: &'static str| t@);
            write_list(&mut out, indent.as_str(), "enhancements", &enhancements);
            if peripherals.len() > 0 {
                write_list(&mut out, indent.as_str(), "peripherals", &peripherals);
            }
            assert(out@ == out0 + split_text(leading(ls[i as int]), enh, per));
            assert(sorted_terms(list_terms(ls, i + 1, j as int), t_before).0 == Ok::<(Seq<Seq<char>>, Seq<Seq<char>>), Seq<char>>((enh, per)));
            proof {
                reveal_strlit("features: [],");
                reveal_strlit("features: [");
                assert(trim_start(ls[i as int]) != "features: [],"@);
            }
            assert(split_outcome(text@) == split_run(ls, j + 1, out@, true, (
                (stats.cleared_lists - s0.cleared_lists) as nat,
                (stats.super_game_boy - s0.super_game_boy) as nat,
                (stats.game_boy_color - s0.game_boy_color) as nat,
                (stats.link_cable - s0.link_cable) as nat,
                (stats.printer - s0.printer) as nat,
            )));
            any = true;
            i = j + 1;
        } else {
            push_str(&mut out, lines[i].as_str());
            push_str(&mut out, "\n");
            i = i + 1;
        }
    }
    if any {
        Ok(Some(out))
    } else {
        Ok(None)
    }
}

proof fn lemma_sorted_prefix_err(terms: Seq<Seq<char>>, t: Tally, k: int)
    requires
        0 < k <= terms.len(),
        sorted_terms(terms.take(k), t).0 is Err,
    ensures
        sorted_terms(terms, t) == sorted_terms(terms.take(k), t),
    decreases terms.len() - k,
{
    if k < terms.len() {
        assert(terms.take(k + 1).drop_last() == terms.take(k));
        lemma_sorted_prefix_err(terms, t, k + 1);
    } else {
        assert(terms.take(k) == terms);
    }
}

/// The line a `controllers` list opens with, under the key it is renamed to.
pub open spec fn renamed_key(rest: Seq<char>) -> Option<Seq<char>> {
    if rest == "controllers: ["@ {
        Some("peripherals: ["@)
    } else if rest == "controllers: [],"@ {
        Some("peripherals: [],"@)
    } else {
        None
    }
}

/// A manifest text with each line that opens a `controllers` list renamed
/// to open a `peripherals` list, and how many were.
pub open spec fn renamed_text(lines: Seq<Seq<char>>) -> (Seq<char>, nat)
    decreases lines.len(),
{
    if lines.len() == 0 {
        (Seq::empty(), 0)
    } else {
        let (out, n) = renamed_text(lines.drop_last());
        let line = lines.last();
        match renamed_key(trim_start(line)) {
            Some(key) => (out + leading(line) + key + "\n"@, n + 1),
            None => (out + line + "\n"@, n),
        }
    }
}

proof fn lemma_renamed_count(lines: Seq<Seq<char>>)
    ensures
        renamed_text(lines).1 <= lines.len(),
    decreases lines.len(),
{
    if lines.len() > 0 {
        lemma_renamed_count(lines.drop_last());
    }
}

/// Renames the VCS `controllers` key to `peripherals`: the rewritten text,
/// and how many lists it renamed (none means the file stays as it is).
pub fn rename_controllers(text: &str) -> (r: (String, usize))
    ensures
        r.0@ == renamed_text(text_lines(text@)).0,
        r.1 == renamed_text(text_lines(text@)).1,
{
    let lines = lines_of(text);
    let ghost ls = text_lines(text@);
    let mut out = String::new();
    let mut renamed: usize = 0;
    let mut i: usize = 0;
    assert(ls.take(0) =~= Seq::<Seq<char>>::empty());
    while i < lines.len()
        invariant
            views(lines@) == ls,
            i <= ls.len(),
            out@ == renamed_text(ls.take(i as int)).0,
            renamed == renamed_text(ls.take(i as int)).1,
            renamed <= i,
        decreases ls.len() - i,
    {
        assert(ls.take(i + 1).drop_last() == ls.take(i as int));
        assert(ls.take(i + 1).last() == lines@[i as int]@);
        let line = chars_of(lines[i].as_str());
        let (indent, rest) = split_indent(&line);
        if text_is(&rest, "controllers: [") {
            push_str(&mut out, string_from(indent.as_slice()).as_str());
            push_str(&mut out, "peripherals: [");
            renamed = renamed + 1;
        } else if text_is(&rest, "controllers: [],") {
            push_str(&mut out, string_from(indent.as_slice()).as_str());
            push_str(&mut out, "peripherals: [],");
            renamed = renamed + 1;
        } else {
            push_str(&mut out, lines[i].as_str());
        }
        push_str(&mut out, "\n");
        i = i + 1;
    }
    assert(ls.take(ls.len() as int) == ls);
    (out, renamed)
}


proof fn lemma_leading(s: Seq<char>)
    ensures
        trim_start(s).len() <= s.len(),
        leading(s) + trim_start(s) == s,
        forall|i: int| 0 <= i < leading(s).len() ==> is_whitespace(#[trigger] leading(s)[i]),
    decreases s.len(),
{
    if s.len() > 0 && is_whitespace(s[0]) {
        let d = s.drop_first();
        lemma_leading(d);
        assert(trim_start(s) == trim_start(d));
        assert(leading(s) =~= seq![s[0]] + leading(d));
        assert(seq![s[0]] + d =~= s);
        assert((seq![s[0]] + leading(d)) + trim_start(d) =~= seq![s[0]] + (leading(d) + trim_start(d)));
        assert(leading(s) + trim_start(s) =~= s);
    } else {
        assert(trim_start(s) == s);
        assert(leading(s) =~= Seq::<char>::empty());
        assert(leading(s) + trim_start(s) =~= s);
    }
}

proof fn lemma_free_concat(a: Seq<char>, b: Seq<char>, c: char)
    requires
        free_of(a, c),
        free_of(b, c),
    ensures
        free_of(a + b, c),
{
    assert forall|i: int| 0 <= i < (a + b).len() implies (a + b)[i] != c by {
        if i < a.len() {
            assert((a + b)[i] == a[i]);
        } else {
            assert((a + b)[i] == b[i - a.len()]);
        }
    }
}

proof fn lemma_plain_concat(a: Seq<char>, b: Seq<char>)
    requires
        plain_line(a),
        plain_line(b),
    ensures
        plain_line(a + b),
{
    lemma_free_concat(a, b, '\n');
    lemma_free_concat(a, b, '\r');
}

/// The indentation of a plain line is plain whitespace.
proof fn lemma_plain_leading(line: Seq<char>)
    requires
        plain_line(line),
    ensures
        plain_line(leading(line)),
        forall|i: int| 0 <= i < leading(line).len() ==> is_whitespace(#[trigger] leading(line)[i]),
{
    lemma_leading(line);
}

/// An indented text whose own first character is no whitespace trims to itself.
proof fn lemma_trim_indented(indent: Seq<char>, x: Seq<char>)
    requires
        forall|i: int| 0 <= i < indent.len() ==> is_whitespace(#[trigger] indent[i]),
        x.len() > 0,
        !is_whitespace(x[0]),
    ensures
        trim_start(indent + x) == x,
{
    lemma_trim_start_after_blank(indent, x);
}

/// A line a split leaves behind: plain, and opening no `features` list.
pub open spec fn settled_line(l: Seq<char>) -> bool {
    &&& plain_line(l)
    &&& trim_start(l) != "features: [],"@
    &&& trim_start(l) != "features: ["@
}

/// The names a split writes.
pub open spec fn split_name(n: Seq<char>) -> bool {
    n == "SuperGameBoy"@ || n == "GameBoyColor"@ || n == "LinkCable"@ || n == "Printer"@
}

proof fn lemma_sorted_names(terms: Seq<Seq<char>>, t: Tally)
    ensures
        sorted_terms(terms, t).0 matches Ok((enh, per)) ==> (forall|k: int|
            0 <= k < enh.len() ==> split_name(#[trigger] enh[k])) && (forall|k: int|
            0 <= k < per.len() ==> split_name(#[trigger] per[k])),
    decreases terms.len(),
{
    if terms.len() > 0 {
        lemma_sorted_names(terms.drop_last(), t);
    }
}

/// The lines splitting a list writes.
pub open spec fn split_lines(indent: Seq<char>, enh: Seq<Seq<char>>, per: Seq<Seq<char>>) -> Seq<Seq<char>> {
    list_lines(indent, "enhancements"@, enh) + if per.len() > 0 {
        list_lines(indent, "peripherals"@, per)
    } else {
        Seq::empty()
    }
}

/// The lines a written list is made of.
pub open spec fn entry_lines(indent: Seq<char>, terms: Seq<Seq<char>>) -> Seq<Seq<char>> {
    terms.map_values(|t: Seq<char>| indent + "    "@ + t + ","@)
}

pub open spec fn list_lines(indent: Seq<char>, key: Seq<char>, terms: Seq<Seq<char>>) -> Seq<Seq<char>> {
    if terms.len() == 0 {
        seq![indent + key + ": [],"@]
    } else {
        seq![indent + key + ": ["@] + entry_lines(indent, terms) + seq![indent + "],"@]
    }
}

proof fn lemma_entries_joined(indent: Seq<char>, terms: Seq<Seq<char>>)
    ensures
        entries_text(indent, terms) == joined_lines(entry_lines(indent, terms)),
    decreases terms.len(),
{
    reveal_strlit(",\n");
    reveal_strlit(",");
    if terms.len() > 0 {
        lemma_entries_joined(indent, terms.drop_last());
        assert(entry_lines(indent, terms).drop_last() =~= entry_lines(indent, terms.drop_last()));
        assert(entry_lines(indent, terms).last() == indent + "    "@ + terms.last() + ","@);
        assert(indent + "    "@ + terms.last() + ",\n"@ =~= indent + "    "@ + terms.last() + ","@ + seq!['\n']);
        assert(entries_text(indent, terms.drop_last()) + indent + "    "@ + terms.last() + ",\n"@ =~= entries_text(
            indent,
            terms.drop_last(),
        ) + (indent + "    "@ + terms.last() + ",\n"@));
        assert(joined_lines(entry_lines(indent, terms)) =~= joined_lines(entry_lines(indent, terms.drop_last())) + (
        indent + "    "@ + terms.last() + ","@) + seq!['\n']);
    } else {
        assert(entry_lines(indent, terms) =~= Seq::<Seq<char>>::empty());
    }
}

proof fn lemma_list_joined(indent: Seq<char>, key: Seq<char>, terms: Seq<Seq<char>>)
    ensures
        list_text(indent, key, terms) == joined_lines(list_lines(indent, key, terms)),
{
    reveal_strlit(": [],\n");
    reveal_strlit(": [],");
    reveal_strlit(": [\n");
    reveal_strlit(": [");
    reveal_strlit("],\n");
    reveal_strlit("],");
    let a = seq![indent + key + ": [],"@];
    assert(a.drop_last() =~= Seq::<Seq<char>>::empty());
    assert(joined_lines(a.drop_last()) == Seq::<char>::empty());
    assert(joined_lines(a) == Seq::<char>::empty() + (indent + key + ": [],"@) + seq!['\n']);
    assert(joined_lines(a) =~= indent + key + ": [],\n"@);
    if terms.len() > 0 {
        let first = seq![indent + key + ": ["@];
        let es = entry_lines(indent, terms);
        let last = seq![indent + "],"@];
        lemma_entries_joined(indent, terms);
        lemma_joined_concat(first + es, last);
        lemma_joined_concat(first, es);
        assert(first.drop_last() =~= Seq::<Seq<char>>::empty());
        assert(last.drop_last() =~= Seq::<Seq<char>>::empty());
        assert(joined_lines(first.drop_last()) == Seq::<char>::empty());
        assert(joined_lines(last.drop_last()) == Seq::<char>::empty());
        assert(joined_lines(first) == Seq::<char>::empty() + (indent + key + ": ["@) + seq!['\n']);
        assert(joined_lines(last) == Seq::<char>::empty() + (indent + "],"@) + seq!['\n']);
        assert(joined_lines(first) =~= indent + key + ": [\n"@);
        assert(joined_lines(last) =~= indent + "],\n"@);
        assert(list_text(indent, key, terms) =~= joined_lines(first) + joined_lines(es) + joined_lines(last));
    }
}

/// The lines of a written list are settled: each opens or closes a list, or
/// names one term.
proof fn lemma_list_settled(indent: Seq<char>, key: Seq<char>, terms: Seq<Seq<char>>)
    requires
        plain_line(indent),
        forall|i: int| 0 <= i < indent.len() ==> is_whitespace(#[trigger] indent[i]),
        key == "enhancements"@ || key == "peripherals"@,
        forall|k: int| 0 <= k < terms.len() ==> split_name(#[trigger] terms[k]),
    ensures
        forall|k: int|
            0 <= k < list_lines(indent, key, terms).len() ==> settled_line(#[trigger] list_lines(indent, key, terms)[k]),
{
    reveal_strlit(": [],");
    reveal_strlit(": [");
    reveal_strlit("],");
    reveal_strlit(",");
    reveal_strlit("    ");
    reveal_strlit("enhancements");
    reveal_strlit("peripherals");
    reveal_strlit("features: [],");
    reveal_strlit("features: [");
    reveal_strlit("SuperGameBoy");
    reveal_strlit("GameBoyColor");
    reveal_strlit("LinkCable");
    reveal_strlit("Printer");
    assert(plain_line(key));
    let ls = list_lines(indent, key, terms);
    assert forall|k: int| 0 <= k < ls.len() implies settled_line(#[trigger] ls[k]) by {
        if terms.len() == 0 || k == 0 {
            let tail = if terms.len() == 0 { key + ": [],"@ } else { key + ": ["@ };
            assert(plain_line(": [],"@));
            assert(plain_line(": ["@));
            lemma_plain_concat(key, if terms.len() == 0 { ": [],"@ } else { ": ["@ });
            lemma_plain_concat(indent, tail);
            assert(ls[k] =~= indent + tail);
            lemma_trim_indented(indent, tail);
            assert(tail[0] == key[0]);
        } else if k == ls.len() - 1 {
            assert(ls[k] == indent + "],"@);
            assert(plain_line("],"@));
            lemma_plain_concat(indent, "],"@);
            lemma_trim_indented(indent, "],"@);
        } else {
            let t = terms[k - 1];
            assert(split_name(t));
            assert(ls[k] == indent + "    "@ + t + ","@);
            let blank = indent + "    "@;
            assert forall|i: int| 0 <= i < blank.len() implies is_whitespace(#[trigger] blank[i]) by {
                if i >= indent.len() {
                    assert(blank[i] == "    "@[i - indent.len()]);
                }
            }
            assert(plain_line(t));
            assert(plain_line("    "@));
            assert(plain_line(","@));
            lemma_plain_concat(indent, "    "@);
            lemma_plain_concat(t, ","@);
            lemma_plain_concat(blank, t + ","@);
            assert(ls[k] =~= blank + (t + ","@));
            lemma_trim_indented(blank, t + ","@);
            assert((t + ","@)[0] == t[0]);
        }
    }
}

/// What splitting a list writes is settled lines.
proof fn lemma_split_settled(indent: Seq<char>, enh: Seq<Seq<char>>, per: Seq<Seq<char>>)
    requires
        plain_line(indent),
        forall|i: int| 0 <= i < indent.len() ==> is_whitespace(#[trigger] indent[i]),
        forall|k: int| 0 <= k < enh.len() ==> split_name(#[trigger] enh[k]),
        forall|k: int| 0 <= k < per.len() ==> split_name(#[trigger] per[k]),
    ensures
        split_text(indent, enh, per) == joined_lines(split_lines(indent, enh, per)),
        forall|k: int|
            0 <= k < split_lines(indent, enh, per).len() ==> settled_line(#[trigger] split_lines(indent, enh, per)[k]),
{
    let a = list_lines(indent, "enhancements"@, enh);
    let b = if per.len() > 0 {
        list_lines(indent, "peripherals"@, per)
    } else {
        Seq::empty()
    };
    lemma_list_joined(indent, "enhancements"@, enh);
    lemma_list_settled(indent, "enhancements"@, enh);
    if per.len() > 0 {
        lemma_list_joined(indent, "peripherals"@, per);
        lemma_list_settled(indent, "peripherals"@, per);
    } else {
        assert(joined_lines(b) =~= Seq::<char>::empty());
    }
    lemma_joined_concat(a, b);
    assert(split_lines(indent, enh, per) == a + b);
    assert(split_text(indent, enh, per) =~= joined_lines(a) + joined_lines(b));
    assert forall|k: int| 0 <= k < (a + b).len() implies settled_line(#[trigger] (a + b)[k]) by {
        if k < a.len() {
            assert((a + b)[k] == a[k]);
        } else {
            assert((a + b)[k] == b[k - a.len()]);
        }
    }
}

/// Splitting settled lines finds no list, whatever it was handed.
proof fn lemma_settled_run(lines: Seq<Seq<char>>, i: int, out: Seq<char>, t: Tally)
    requires
        0 <= i,
        forall|k: int| i <= k < lines.len() ==> settled_line(#[trigger] lines[k]),
    ensures
        split_run(lines, i, out, false, t) == (Ok::<Option<Seq<char>>, Seq<char>>(None), t),
    decreases lines.len() - i,
{
    if i < lines.len() {
        assert(settled_line(lines[i]));
        lemma_settled_run(lines, i + 1, out + lines[i] + "\n"@, t);
    }
}

/// What a split writes, from line `i` on, is settled lines.
proof fn lemma_split_output(lines: Seq<Seq<char>>, i: int, written: Seq<Seq<char>>, any: bool, t: Tally)
    requires
        0 <= i,
        forall|k: int| 0 <= k < lines.len() ==> plain_line(#[trigger] lines[k]),
        forall|k: int| 0 <= k < written.len() ==> settled_line(#[trigger] written[k]),
    ensures
        split_run(lines, i, joined_lines(written), any, t).0 matches Ok(Some(res)) ==> exists|ls: Seq<Seq<char>>|
            res == joined_lines(ls) && forall|k: int| 0 <= k < ls.len() ==> settled_line(#[trigger] ls[k]),
    decreases lines.len() - i,
{
    reveal_strlit("\n");
    if i < lines.len() {
        let line = lines[i];
        let tr = trim_start(line);
        let out = joined_lines(written);
        assert(plain_line(line));
        lemma_plain_leading(line);
        if tr == "features: [],"@ {
            lemma_split_settled(leading(line), Seq::empty(), Seq::empty());
            let more = split_lines(leading(line), Seq::empty(), Seq::empty());
            lemma_joined_concat(written, more);
            assert forall|k: int| 0 <= k < (written + more).len() implies settled_line(#[trigger] (written + more)[k]) by {
                if k < written.len() {
                    assert((written + more)[k] == written[k]);
                } else {
                    assert((written + more)[k] == more[k - written.len()]);
                }
            }
            lemma_split_output(lines, i + 1, written + more, true, (t.0 + 1, t.1, t.2, t.3, t.4));
        } else if tr == "features: ["@ {
            match list_close(lines, i + 1) {
                None => {},
                Some(k) => if i < k < lines.len() {
                    lemma_sorted_names(list_terms(lines, i + 1, k), t);
                    match sorted_terms(list_terms(lines, i + 1, k), t) {
                        (Err(e), t2) => {},
                        (Ok((enh, per)), t2) => {
                            lemma_split_settled(leading(line), enh, per);
                            let more = split_lines(leading(line), enh, per);
                            lemma_joined_concat(written, more);
                            assert forall|j: int| 0 <= j < (written + more).len() implies settled_line(
                                #[trigger] (written + more)[j],
                            ) by {
                                if j < written.len() {
                                    assert((written + more)[j] == written[j]);
                                } else {
                                    assert((written + more)[j] == more[j - written.len()]);
                                }
                            }
                            lemma_split_output(lines, k + 1, written + more, true, t2);
                        },
                    }
                },
            }
        } else {
            let more = written.push(line);
            assert(more.drop_last() == written);
            assert(out + line + "\n"@ =~= joined_lines(more));
            assert(settled_line(line));
            assert forall|j: int| 0 <= j < more.len() implies settled_line(#[trigger] more[j]) by {
                if j < written.len() {
                    assert(more[j] == written[j]);
                }
            }
            lemma_split_output(lines, i + 1, more, any, t);
        }
    } else {
        if any {
            assert(split_run(lines, i, joined_lines(written), any, t).0 == Ok::<Option<Seq<char>>, Seq<char>>(
                Some(joined_lines(written)),
            ));
        }
    }
}

/// A split manifest states no `features` list any more, so splitting it
/// again finds nothing to do and counts nothing: a repeat run leaves every
/// file as it is. (A text with carriage returns is left out: `lines` reads
/// a line ending `\r\r\n` as a line ending `\r`, which the rewrite then
/// ends with `\n` alone.)
pub proof fn lemma_split_is_final(text: Seq<char>)
    requires
        free_of(text, '\r'),
    ensures
        split_outcome(text).0 matches Ok(Some(out)) ==> split_outcome(out) == (
        Ok::<Option<Seq<char>>, Seq<char>>(None), (0nat, 0nat, 0nat, 0nat, 0nat)),
{
    lemma_text_lines_plain(text);
    assert(joined_lines(Seq::<Seq<char>>::empty()) == Seq::<char>::empty());
    lemma_split_output(text_lines(text), 0, Seq::empty(), false, (0, 0, 0, 0, 0));
    match split_outcome(text).0 {
        Ok(Some(out)) => {
            let ls = choose|ls: Seq<Seq<char>>|
                out == joined_lines(ls) && forall|k: int| 0 <= k < ls.len() ==> settled_line(#[trigger] ls[k]);
            assert forall|k: int| 0 <= k < ls.len() implies plain_line(#[trigger] ls[k]) by {
                assert(settled_line(ls[k]));
            }
            lemma_text_lines_joined(ls);
            lemma_settled_run(ls, 0, Seq::empty(), (0, 0, 0, 0, 0));
        },
        _ => {},
    }
}

/// A line as the rename writes it.
pub open spec fn renamed_line(l: Seq<char>) -> Seq<char> {
    match renamed_key(trim_start(l)) {
        Some(key) => leading(l) + key,
        None => l,
    }
}

proof fn lemma_renamed_joined(lines: Seq<Seq<char>>)
    ensures
        renamed_text(lines).0 == joined_lines(lines.map_values(|l: Seq<char>| renamed_line(l))),
    decreases lines.len(),
{
    reveal_strlit("\n");
    if lines.len() > 0 {
        lemma_renamed_joined(lines.drop_last());
        let m = lines.map_values(|l: Seq<char>| renamed_line(l));
        assert(m.drop_last() =~= lines.drop_last().map_values(|l: Seq<char>| renamed_line(l)));
        assert(m.last() == renamed_line(lines.last()));
        let out = renamed_text(lines.drop_last()).0;
        let line = lines.last();
        match renamed_key(trim_start(line)) {
            Some(key) => {
                assert(out + leading(line) + key + "\n"@ =~= out + (leading(line) + key) + seq!['\n']);
            },
            None => {
                assert(out + line + "\n"@ =~= out + line + seq!['\n']);
            },
        }
    }
}

proof fn lemma_nothing_renamed(lines: Seq<Seq<char>>)
    requires
        forall|k: int| 0 <= k < lines.len() ==> renamed_key(trim_start(#[trigger] lines[k])) is None,
    ensures
        renamed_text(lines).1 == 0,
    decreases lines.len(),
{
    if lines.len() > 0 {
        assert(renamed_key(trim_start(lines[lines.len() - 1])) is None);
        lemma_nothing_renamed(lines.drop_last());
    }
}

/// Renaming leaves no `controllers` list behind, so a second rename renames
/// nothing and the tool leaves the file as it is. (A text with carriage
/// returns is left out, as for the features split: a line ending `\r\r\n`
/// reads back differently once rewritten.)
pub proof fn lemma_rename_is_final(text: Seq<char>)
    requires
        free_of(text, '\r'),
    ensures
        renamed_text(text_lines(renamed_text(text_lines(text)).0)).1 == 0,
{
    reveal_strlit("controllers: [");
    reveal_strlit("controllers: [],");
    reveal_strlit("peripherals: [");
    reveal_strlit("peripherals: [],");
    let ls = text_lines(text);
    lemma_text_lines_plain(text);
    lemma_renamed_joined(ls);
    let m = ls.map_values(|l: Seq<char>| renamed_line(l));
    assert forall|k: int| 0 <= k < m.len() implies plain_line(#[trigger] m[k]) && renamed_key(trim_start(m[k])) is None by {
        let l = ls[k];
        assert(m[k] == renamed_line(l));
        assert(plain_line(l));
        match renamed_key(trim_start(l)) {
            Some(key) => {
                assert(key == "peripherals: ["@ || key == "peripherals: [],"@);
                assert(key[0] == 'p');
                lemma_plain_leading(l);
                assert(plain_line(key));
                lemma_plain_concat(leading(l), key);
                lemma_trim_indented(leading(l), key);
                assert(m[k] == leading(l) + key);
                assert(trim_start(m[k]) == key);
                assert(key != "controllers: ["@);
                assert(key != "controllers: [],"@);
                assert(renamed_key(key) is None);
            },
            None => {
                assert(m[k] == l);
            },
        }
    }
    lemma_text_lines_joined(m);
    lemma_nothing_renamed(m);
}
} // verus!
