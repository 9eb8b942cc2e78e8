//! Title and word transforms: collation forms, directory-name forms, and
//! the region words of catalogue names.
use vstd::prelude::*;

use crate::ids::{is_slug_char, is_slug_text};
use crate::region::Region;
use crate::strings::{
    owned, split_words, views, words, chars_of, is_alnum, is_ascii_alnum, is_digit, is_lower, is_upper, lemma_lower, lower, str_eq,
    string_from, to_lower,
};

verus! {

broadcast use vstd::string::group_string_axioms;

/// Collation state after reading a prefix: bracket depth and the kept text.
pub open spec fn collate(s: Seq<char>) -> (int, Seq<char>)
    decreases s.len(),
{
    if s.len() == 0 {
        (0, Seq::empty())
    } else {
        let (depth, out) = collate(s.drop_last());
        let c = s.last();
        if c == '(' || c == '[' {
            (depth + 1, out)
        } else if c == ')' || c == ']' {
            (if depth > 0 { depth - 1 } else { 0 }, out)
        } else if depth == 0 && is_alnum(c) {
            (depth, out.push(lower(c)))
        } else {
            (depth, out)
        }
    }
}

/// Collation form of a title: ASCII alphanumerics outside brackets, lowercased.
pub open spec fn collation_form(s: Seq<char>) -> Seq<char> {
    collate(s).1
}

proof fn lemma_collate_bounds(s: Seq<char>)
    ensures
        0 <= collate(s).0 <= s.len(),
        forall|i: int|
            0 <= i < collate(s).1.len() ==> #[trigger] is_digit(collate(s).1[i]) || is_lower(
                collate(s).1[i],
            ),
    decreases s.len(),
{
    if s.len() > 0 {
        lemma_collate_bounds(s.drop_last());
        lemma_lower(s.last());
    }
}

/// Collation form for duplicate/near-miss detection: casefolded, with
/// parentheticals and punctuation stripped.
pub fn normalized_title(title: &str) -> (out: String)
    ensures
        out@ == collation_form(title@),
{
    let chars = chars_of(title);
    let mut out: Vec<char> = Vec::new();
    let mut depth: usize = 0;
    let mut i: usize = 0;
    while i < chars.len()
        invariant
            chars@ == title@,
            i <= chars@.len(),
            (depth as int, out@) == collate(chars@.take(i as int)),
            depth <= i,
        decreases chars@.len() - i,
    {
        let c = chars[i];
        assert(chars@.take(i + 1).drop_last() == chars@.take(i as int));
        proof {
            lemma_collate_bounds(chars@.take(i as int));
        }
        if c == '(' || c == '[' {
            depth = depth + 1;
        } else if c == ')' || c == ']' {
            if depth > 0 {
                depth = depth - 1;
            }
        } else if depth == 0 && is_ascii_alnum(c) {
            out.push(to_lower(c));
        }
        i = i + 1;
    }
    assert(chars@.take(chars@.len() as int) == chars@);
    string_from(out.as_slice())
}

/// The collation form is made of lowercase ASCII letters and digits only.
pub proof fn lemma_collation_charset(s: Seq<char>)
    ensures
        forall|i: int|
            0 <= i < collation_form(s).len() ==> #[trigger] is_digit(collation_form(s)[i])
                || is_lower(collation_form(s)[i]),
{
    lemma_collate_bounds(s);
}

/// Text without brackets keeps depth zero and collates character by character.
proof fn lemma_collate_plain(s: Seq<char>)
    requires
        forall|i: int| 0 <= i < s.len() ==> #[trigger] is_digit(s[i]) || is_lower(s[i]),
    ensures
        collate(s) == (0int, s),
    decreases s.len(),
{
    if s.len() > 0 {
        lemma_collate_plain(s.drop_last());
        assert(is_digit(s.last()) || is_lower(s.last()));
        lemma_lower(s.last());
        assert(s.drop_last().push(s.last()) == s);
    }
}

/// Collating a title twice changes nothing more than collating it once.
pub proof fn lemma_collation_idempotent(s: Seq<char>)
    ensures
        collation_form(collation_form(s)) == collation_form(s),
{
    lemma_collation_charset(s);
    lemma_collate_plain(collation_form(s));
}

/// A bracket character, opening or closing.
pub open spec fn is_bracket(c: char) -> bool {
    c == '(' || c == '[' || c == ')' || c == ']'
}

pub open spec fn bracket_free(s: Seq<char>) -> bool {
    forall|i: int| 0 <= i < s.len() ==> !is_bracket(#[trigger] s[i])
}

/// Reading more text at depth zero collates it on its own, after what came
/// before.
proof fn lemma_collate_concat(p: Seq<char>, q: Seq<char>)
    requires
        collate(p).0 == 0,
    ensures
        collate(p + q) == (collate(q).0, collate(p).1 + collate(q).1),
    decreases q.len(),
{
    if q.len() == 0 {
        assert(p + q =~= p);
        assert(collate(p).1 + collate(q).1 =~= collate(p).1);
    } else {
        lemma_collate_concat(p, q.drop_last());
        assert((p + q).drop_last() =~= p + q.drop_last());
        assert((p + q).last() == q.last());
        let c = q.last();
        if !(c == '(' || c == '[' || c == ')' || c == ']') && collate(q.drop_last()).0 == 0 && is_alnum(c) {
            assert(collate(p).1 + collate(q.drop_last()).1.push(lower(c)) =~= (collate(p).1 + collate(
                q.drop_last(),
            ).1).push(lower(c)));
        }
    }
}

/// Bracket-free text read inside brackets changes nothing.
proof fn lemma_collate_inside(p: Seq<char>, x: Seq<char>)
    requires
        collate(p).0 > 0,
        bracket_free(x),
    ensures
        collate(p + x) == collate(p),
    decreases x.len(),
{
    if x.len() == 0 {
        assert(p + x =~= p);
    } else {
        assert(bracket_free(x.drop_last()));
        lemma_collate_inside(p, x.drop_last());
        assert((p + x).drop_last() =~= p + x.drop_last());
        assert(!is_bracket(x[x.len() - 1]));
    }
}

proof fn lemma_collate_plain_depth(a: Seq<char>)
    requires
        bracket_free(a),
    ensures
        collate(a).0 == 0,
    decreases a.len(),
{
    if a.len() > 0 {
        assert(bracket_free(a.drop_last()));
        lemma_collate_plain_depth(a.drop_last());
        assert(!is_bracket(a[a.len() - 1]));
    }
}

/// A closed parenthetical (or bracketed tag) drops out of the collation form
/// and nothing else does: what comes before and after it is kept, as each
/// collates on its own.
pub proof fn lemma_collation_drops_closed_brackets(a: Seq<char>, x: Seq<char>, b: Seq<char>, open: char, close: char)
    requires
        bracket_free(a),
        bracket_free(x),
        (open == '(' && close == ')') || (open == '[' && close == ']'),
    ensures
        collation_form(a + seq![open] + x + seq![close] + b) == collation_form(a) + collation_form(b),
{
    lemma_collate_plain_depth(a);
    let p1 = a + seq![open];
    assert(p1.drop_last() =~= a);
    assert(collate(p1) == (1int, collate(a).1));
    lemma_collate_inside(p1, x);
    let p2 = p1 + x;
    let p3 = p2 + seq![close];
    assert(p3.drop_last() =~= p2);
    assert(collate(p3) == (0int, collate(a).1));
    lemma_collate_concat(p3, b);
    assert(a + seq![open] + x + seq![close] + b =~= p3 + b);
}

/// `char::to_ascii_uppercase`: ASCII lowercase letters raised, everything
/// else kept.
pub open spec fn upper(c: char) -> char {
    if is_lower(c) {
        ((c as u32) - 32) as char
    } else {
        c
    }
}

pub open spec fn upper_seq(s: Seq<char>) -> Seq<char> {
    s.map_values(|c: char| upper(c))
}

proof fn lemma_upper(c: char)
    ensures
        is_alnum(upper(c)) == is_alnum(c),
        lower(upper(c)) == lower(c),
        (upper(c) == '(' || upper(c) == '[') == (c == '(' || c == '['),
        (upper(c) == ')' || upper(c) == ']') == (c == ')' || c == ']'),
{
    if is_lower(c) {
        assert(is_upper(upper(c)));
        lemma_lower(upper(c));
        assert((lower(upper(c)) as u32) == (c as u32));
    }
    lemma_lower(c);
}

proof fn lemma_collate_upper(s: Seq<char>)
    ensures
        collate(upper_seq(s)) == collate(s),
    decreases s.len(),
{
    if s.len() > 0 {
        lemma_collate_upper(s.drop_last());
        assert(upper_seq(s).drop_last() =~= upper_seq(s.drop_last()));
        assert(upper_seq(s).last() == upper(s.last()));
        lemma_upper(s.last());
    }
}

proof fn lemma_collate_len(s: Seq<char>)
    ensures
        collate(s).1.len() <= s.len(),
    decreases s.len(),
{
    if s.len() > 0 {
        lemma_collate_len(s.drop_last());
    }
}

/// The collation form is no longer than the title, and casing a title up
/// (ASCII) leaves its collation form as it is.
pub proof fn lemma_collation_case_blind(s: Seq<char>)
    ensures
        collation_form(s).len() <= s.len(),
        collation_form(upper_seq(s)) == collation_form(s),
{
    lemma_collate_len(s);
    lemma_collate_upper(s);
}

/// Directory-name state after reading a prefix: whether a separator is
/// pending, and the slug so far.
pub open spec fn slug_state(s: Seq<char>) -> (bool, Seq<char>)
    decreases s.len(),
{
    if s.len() == 0 {
        (false, Seq::empty())
    } else {
        let (gap, slug) = slug_state(s.drop_last());
        let c = s.last();
        if is_alnum(c) {
            let sep = if gap && slug.len() > 0 { slug.push('-') } else { slug };
            (false, sep.push(lower(c)))
        } else {
            (true, slug)
        }
    }
}

/// Directory-name form of a title: lowercase alphanumeric runs joined by `-`.
pub open spec fn slug_form(s: Seq<char>) -> Seq<char> {
    slug_state(s).1
}

/// Directory-name form of a title: lowercase alphanumeric runs joined by `-`.
pub fn slugify(title: &str) -> (slug: String)
    ensures
        slug@ == slug_form(title@),
{
    let chars = chars_of(title);
    let mut slug: Vec<char> = Vec::new();
    let mut gap = false;
    let mut i: usize = 0;
    while i < chars.len()
        invariant
            chars@ == title@,
            i <= chars@.len(),
            (gap, slug@) == slug_state(chars@.take(i as int)),
        decreases chars@.len() - i,
    {
        let c = chars[i];
        assert(chars@.take(i + 1).drop_last() == chars@.take(i as int));
        if is_ascii_alnum(c) {
            if gap && slug.len() > 0 {
                slug.push('-');
            }
            slug.push(to_lower(c));
            gap = false;
        } else {
            gap = true;
        }
        i = i + 1;
    }
    assert(chars@.take(chars@.len() as int) == chars@);
    string_from(slug.as_slice())
}

/// The shape of a directory-name form: slug characters without `_`, never
/// starting or ending with `-` and never doubling it.
pub open spec fn is_dashed_words(s: Seq<char>) -> bool {
    &&& forall|i: int| 0 <= i < s.len() ==> #[trigger] is_slug_char(s[i]) && s[i] != '_'
    &&& s.len() > 0 ==> s[0] != '-' && s.last() != '-'
    &&& forall|i: int| 0 <= i < s.len() - 1 ==> !(#[trigger] s[i] == '-' && s[i + 1] == '-')
}

proof fn lemma_slug_state_shape(s: Seq<char>)
    ensures
        is_dashed_words(slug_state(s).1),
    decreases s.len(),
{
    if s.len() > 0 {
        lemma_slug_state_shape(s.drop_last());
        lemma_lower(s.last());
        let (gap, slug) = slug_state(s.drop_last());
        let c = s.last();
        if is_alnum(c) {
            let sep = if gap && slug.len() > 0 { slug.push('-') } else { slug };
            let out = sep.push(lower(c));
            assert(is_slug_char(lower(c)) && lower(c) != '-');
            assert forall|i: int| 0 <= i < out.len() - 1 implies !(#[trigger] out[i] == '-'
                && out[i + 1] == '-') by {
                if i + 1 < sep.len() {
                    if sep.len() > slug.len() && i + 1 == slug.len() {
                        assert(slug.last() != '-');
                    } else {
                        assert(out[i] == slug[i] && out[i + 1] == slug[i + 1]);
                    }
                }
            }
            assert(out.len() > 0 ==> out[0] != '-');
        }
    }
}

/// Every non-empty directory-name form is a valid slug.
pub proof fn lemma_slug_form_is_slug(s: Seq<char>)
    ensures
        is_dashed_words(slug_form(s)),
        slug_form(s).len() > 0 ==> is_slug_text(slug_form(s)),
{
    lemma_slug_state_shape(s);
}

/// The maximal runs of ASCII alphanumerics of a text, in order, each
/// lowercased.
pub open spec fn alnum_runs(s: Seq<char>) -> Seq<Seq<char>>
    decreases s.len(),
{
    if s.len() == 0 {
        Seq::empty()
    } else {
        let pre = s.drop_last();
        let rs = alnum_runs(pre);
        let c = s.last();
        if !is_alnum(c) {
            rs
        } else if pre.len() > 0 && is_alnum(pre.last()) {
            rs.update(rs.len() - 1, rs.last().push(lower(c)))
        } else {
            rs.push(seq![lower(c)])
        }
    }
}

/// Texts joined by `-`.
pub open spec fn dash_joined(rs: Seq<Seq<char>>) -> Seq<char>
    decreases rs.len(),
{
    if rs.len() == 0 {
        Seq::empty()
    } else if rs.len() == 1 {
        rs[0]
    } else {
        dash_joined(rs.drop_last()) + seq!['-'] + rs.last()
    }
}

proof fn lemma_runs_state(s: Seq<char>)
    ensures
        slug_state(s).0 == (s.len() > 0 && !is_alnum(s.last())),
        slug_state(s).1 == dash_joined(alnum_runs(s)),
        (slug_state(s).1.len() > 0) == (alnum_runs(s).len() > 0),
        s.len() > 0 && is_alnum(s.last()) ==> alnum_runs(s).len() > 0,
    decreases s.len(),
{
    if s.len() > 0 {
        let pre = s.drop_last();
        lemma_runs_state(pre);
        let rs = alnum_runs(pre);
        let c = s.last();
        if is_alnum(c) {
            if pre.len() > 0 && is_alnum(pre.last()) {
                let rs2 = rs.update(rs.len() - 1, rs.last().push(lower(c)));
                assert(rs2.drop_last() =~= rs.drop_last());
                if rs.len() > 1 {
                    assert(dash_joined(rs2) =~= dash_joined(rs).push(lower(c)));
                } else {
                    assert(dash_joined(rs2) =~= dash_joined(rs).push(lower(c)));
                }
            } else {
                let rs2 = rs.push(seq![lower(c)]);
                assert(rs2.drop_last() =~= rs);
                if rs.len() > 0 {
                    assert(dash_joined(rs2) =~= dash_joined(rs).push('-').push(lower(c)));
                } else {
                    assert(dash_joined(rs2) =~= seq![lower(c)]);
                }
            }
        }
    }
}

/// A text already in directory-name form, read char by char: a trailing `-`
/// waits as a pending gap.
proof fn lemma_slug_state_of_dashed(t: Seq<char>)
    requires
        forall|i: int| 0 <= i < t.len() ==> #[trigger] is_lower(t[i]) || is_digit(t[i]) || t[i] == '-',
        t.len() > 0 ==> t[0] != '-',
        forall|i: int| 0 <= i < t.len() - 1 ==> !(#[trigger] t[i] == '-' && t[i + 1] == '-'),
    ensures
        slug_state(t) == if t.len() > 0 && t.last() == '-' {
            (true, t.drop_last())
        } else {
            (false, t)
        },
    decreases t.len(),
{
    if t.len() > 0 {
        let p = t.drop_last();
        let c = t.last();
        assert forall|i: int| 0 <= i < p.len() - 1 implies !(#[trigger] p[i] == '-' && p[i + 1] == '-') by {
            assert(p[i] == t[i] && p[i + 1] == t[i + 1]);
        }
        assert forall|i: int| 0 <= i < p.len() implies #[trigger] is_lower(p[i]) || is_digit(p[i]) || p[i] == '-' by {
            assert(p[i] == t[i]);
        }
        lemma_slug_state_of_dashed(p);
        assert(is_lower(t[t.len() - 1]) || is_digit(t[t.len() - 1]) || t[t.len() - 1] == '-');
        lemma_lower(c);
        if c == '-' {
            assert(p.len() > 0);
            assert(!(t[p.len() - 1] == '-' && t[p.len() as int] == '-'));
            assert(p.last() != '-');
        } else {
            assert(lower(c) == c);
            if p.len() > 0 && p.last() == '-' {
                assert(p.len() > 1) by {
                    if p.len() == 1 {
                        assert(p[0] == t[0]);
                    }
                }
                assert(p.drop_last().len() > 0);
                assert(p.drop_last().push('-') =~= p);
            }
            assert(p.push(c) =~= t);
        }
    }
}

/// A directory-name form is the title's lowercased alphanumeric runs joined
/// by `-`, and it is its own directory-name form: slugifying twice gives
/// what slugifying once did.
pub proof fn lemma_slug_form_runs(s: Seq<char>)
    ensures
        slug_form(s) == dash_joined(alnum_runs(s)),
        slug_form(slug_form(s)) == slug_form(s),
{
    lemma_runs_state(s);
    lemma_slug_state_shape(s);
    let t = slug_form(s);
    assert(is_dashed_words(t));
    assert forall|i: int| 0 <= i < t.len() implies #[trigger] is_lower(t[i]) || is_digit(t[i]) || t[i] == '-' by {
        assert(is_slug_char(t[i]) && t[i] != '_');
    }
    assert forall|i: int| 0 <= i < t.len() - 1 implies !(#[trigger] t[i] == '-' && t[i + 1] == '-') by {
        assert(is_dashed_words(t));
    }
    lemma_slug_state_of_dashed(t);
}

/// Collation form for near-miss detection: casefolded, parentheticals and
/// punctuation stripped.
pub fn normalize_title(title: &str) -> (out: String)
    ensures
        out@ == collation_form(title@),
{
    normalized_title(title)
}

/// A No-Intro region word's meaning: `None` for a word that names no known
/// region, `Some(None)` for "Unknown", `Some(Some(r))` for a region.
pub open spec fn region_word(w: Seq<char>) -> Option<Option<Region>> {
    if w == "Japan"@ {
        Some(Some(Region::Japan))
    } else if w == "USA"@ {
        Some(Some(Region::Usa))
    } else if w == "Europe"@ {
        Some(Some(Region::Europe))
    } else if w == "World"@ {
        Some(Some(Region::World))
    } else if w == "Taiwan"@ {
        Some(Some(Region::Taiwan))
    } else if w == "Germany"@ {
        Some(Some(Region::Germany))
    } else if w == "France"@ {
        Some(Some(Region::France))
    } else if w == "China"@ {
        Some(Some(Region::China))
    } else if w == "Spain"@ {
        Some(Some(Region::Spain))
    } else if w == "Italy"@ {
        Some(Some(Region::Italy))
    } else if w == "Australia"@ {
        Some(Some(Region::Australia))
    } else if w == "United Kingdom"@ {
        Some(Some(Region::UnitedKingdom))
    } else if w == "Korea"@ {
        Some(Some(Region::Korea))
    } else if w == "Hong Kong"@ {
        Some(Some(Region::HongKong))
    } else if w == "Sweden"@ {
        Some(Some(Region::Sweden))
    } else if w == "Netherlands"@ {
        Some(Some(Region::Netherlands))
    } else if w == "Canada"@ {
        Some(Some(Region::Canada))
    } else if w == "Brazil"@ {
        Some(Some(Region::Brazil))
    } else if w == "Unknown"@ {
        Some(None)
    } else {
        None
    }
}

/// One No-Intro region word → schema region. `Unknown` maps to no region.
pub fn parse_region(word: &str) -> (r: Option<Option<Region>>)
    ensures
        r == region_word(word@),
{
    if str_eq(word, "Japan") {
        Some(Some(Region::Japan))
    } else if str_eq(word, "USA") {
        Some(Some(Region::Usa))
    } else if str_eq(word, "Europe") {
        Some(Some(Region::Europe))
    } else if str_eq(word, "World") {
        Some(Some(Region::World))
    } else if str_eq(word, "Taiwan") {
        Some(Some(Region::Taiwan))
    } else if str_eq(word, "Germany") {
        Some(Some(Region::Germany))
    } else if str_eq(word, "France") {
        Some(Some(Region::France))
    } else if str_eq(word, "China") {
        Some(Some(Region::China))
    } else if str_eq(word, "Spain") {
        Some(Some(Region::Spain))
    } else if str_eq(word, "Italy") {
        Some(Some(Region::Italy))
    } else if str_eq(word, "Australia") {
        Some(Some(Region::Australia))
    } else if str_eq(word, "United Kingdom") {
        Some(Some(Region::UnitedKingdom))
    } else if str_eq(word, "Korea") {
        Some(Some(Region::Korea))
    } else if str_eq(word, "Hong Kong") {
        Some(Some(Region::HongKong))
    } else if str_eq(word, "Sweden") {
        Some(Some(Region::Sweden))
    } else if str_eq(word, "Netherlands") {
        Some(Some(Region::Netherlands))
    } else if str_eq(word, "Canada") {
        Some(Some(Region::Canada))
    } else if str_eq(word, "Brazil") {
        Some(Some(Region::Brazil))
    } else if str_eq(word, "Unknown") {
        Some(None)
    } else {
        None
    }
}

/// Regions and unmappable words of a word list, in order.
pub open spec fn region_fold(ws: Seq<Seq<char>>) -> (Seq<Region>, Seq<Seq<char>>)
    decreases ws.len(),
{
    if ws.len() == 0 {
        (Seq::empty(), Seq::empty())
    } else {
        let (regions, unknown) = region_fold(ws.drop_last());
        match region_word(ws.last()) {
            Some(Some(r)) => (regions.push(r), unknown),
            Some(None) => (regions, unknown),
            None => (regions, unknown.push(ws.last())),
        }
    }
}

/// What a comma-separated region text lists: its regions when every word
/// maps, else the words that do not.
pub open spec fn region_list(text: Seq<char>) -> Result<Seq<Region>, Seq<Seq<char>>> {
    let (regions, unknown) = region_fold(words(text, ','));
    if unknown.len() == 0 {
        Ok(regions)
    } else {
        Err(unknown)
    }
}

/// Split a legacy comma-separated region string. Unmappable words come back
/// in the error variant for the report.
pub fn parse_region_list(text: &str) -> (r: Result<Vec<Region>, Vec<String>>)
    ensures
        match (r, region_list(text@)) {
            (Ok(v), Ok(regions)) => v@ == regions,
            (Err(e), Err(unknown)) => views(e@) == unknown,
            _ => false,
        },
{
    let ws = split_words(text, ',');
    let mut regions: Vec<Region> = Vec::new();
    let mut unknown: Vec<String> = Vec::new();
    let mut i: usize = 0;
    while i < ws.len()
        invariant
            views(ws@) == words(text@, ','),
            i <= ws@.len(),
            (regions@, views(unknown@)) == region_fold(views(ws@).take(i as int)),
        decreases ws@.len() - i,
    {
        assert(views(ws@).take(i + 1).drop_last() == views(ws@).take(i as int));
        assert(views(ws@).take(i + 1).last() == ws@[i as int]@);
        match parse_region(ws[i].as_str()) {
            Some(Some(region)) => regions.push(region),
            Some(None) => {},
            None => {
                let ghost before = unknown@;
                unknown.push(owned(ws[i].as_str()));
                assert(views(unknown@) == views(before).push(ws@[i as int]@));
            },
        }
        i = i + 1;
    }
    assert(views(ws@).take(ws@.len() as int) == views(ws@));
    if unknown.len() == 0 {
        Ok(regions)
    } else {
        Err(unknown)
    }
}

} // verus!
