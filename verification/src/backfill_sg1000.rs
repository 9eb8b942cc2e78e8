//! Backfilling SG-1000 facts from sources outside the tree: the title a
//! release shipped under in its own script (MAME's software list keys a
//! native title by dump hash) and the dumps held locally (a `sha1sum` list).
use vstd::prelude::*;

use crate::game::{Artifact, Game, Release};
use crate::platform::Sg1000;
use crate::report::{Report, added, distinct_headings, filed, lemma_filed, total_items};
use crate::strings::{
    ascii_lowercase, chars_of, debug_quoted, debug_str, decimal, decimal_string, find, find_from, find_in, is_white,
    is_whitespace, lemma_find, lines_of, lower_seq, owned, push_str, slice_of, split_on,
    str_eq, string_from, text_lines, to_lower, trim, trimmed, views,
};

verus! {

broadcast use vstd::string::group_string_axioms;

/// What a backfill did.
#[derive(Clone, Copy, PartialEq, Eq, Structural, Debug)]
pub struct Stats {
    pub titled: usize,
    pub sized: usize,
    pub skipped_romanised: usize,
    pub skipped_no_dump: usize,
}

/// The native title an `alt_title` holds: `pinyin ~ native` for the
/// Taiwanese entries and the native form alone elsewhere, so the part after
/// the last tilde, trimmed, when it is not empty.
pub open spec fn native_of(alt: Seq<char>) -> Option<Seq<char>> {
    let native = trim(split_on(alt, '~').last());
    if native.len() > 0 {
        Some(native)
    } else {
        None
    }
}

/// The native title an `alt_title` holds, if any.
pub fn native_title(alt: &str) -> (r: Option<String>)
    ensures
        match native_of(alt@) {
            Some(n) => r matches Some(s) && s@ == n,
            None => r is None,
        },
{
    let chars = chars_of(alt);
    let mut start: usize = 0;
    let mut i: usize = 0;
    proof {
        crate::strings::lemma_split_on_nonempty(chars@.take(0), '~');
    }
    assert(chars@.take(0) =~= Seq::<char>::empty());
    while i < chars.len()
        invariant
            chars@ == alt@,
            start <= i <= chars@.len(),
            split_on(chars@.take(i as int), '~').last() == chars@.subrange(start as int, i as int),
        decreases chars@.len() - i,
    {
        assert(chars@.take(i + 1).drop_last() == chars@.take(i as int));
        assert(chars@.take(i + 1).last() == chars@[i as int]);
        proof {
            crate::strings::lemma_split_on_nonempty(chars@.take(i as int), '~');
        }
        if chars[i] == '~' {
            start = i + 1;
        } else {
            assert(chars@.subrange(start as int, i + 1) == chars@.subrange(start as int, i as int).push(chars@[i as int]));
        }
        i = i + 1;
    }
    assert(chars@.take(chars@.len() as int) == chars@);
    let piece = slice_of(&chars, start, chars.len());
    let native = trimmed(&piece);
    if native.len() > 0 {
        Some(string_from(native.as_slice()))
    } else {
        None
    }
}

/// Characters of a native Japanese, Chinese or Korean script: kana, CJK
/// ideographs (extension A and unified), hangul syllables, halfwidth kana.
pub open spec fn is_native_script(c: char) -> bool {
    let u = c as u32;
    (0x3040 <= u <= 0x30FF) || (0x3400 <= u <= 0x4DBF) || (0x4E00 <= u <= 0x9FFF) || (0xAC00 <= u <= 0xD7AF)
        || (0xFF66 <= u <= 0xFF9F)
}

/// A romanisation is not native script, so it is not a release title: text
/// with no native-script character in it is a reading, not the name.
pub fn is_romanisation(title: &str) -> (b: bool)
    ensures
        b == !(exists|i: int| 0 <= i < title@.len() && #[trigger] is_native_script(title@[i])),
{
    let chars = chars_of(title);
    let mut i: usize = 0;
    while i < chars.len()
        invariant
            chars@ == title@,
            i <= chars@.len(),
            forall|k: int| 0 <= k < i ==> !#[trigger] is_native_script(chars@[k]),
        decreases chars@.len() - i,
    {
        let c = chars[i];
        let u = c as u32;
        if (u >= 0x3040 && u <= 0x30FF) || (u >= 0x3400 && u <= 0x4DBF) || (u >= 0x4E00 && u <= 0x9FFF) || (
        u >= 0xAC00 && u <= 0xD7AF) || (u >= 0xFF66 && u <= 0xFF9F) {
            assert(is_native_script(chars@[i as int]));
            return false;
        }
        i = i + 1;
    }
    true
}

/// The value after a tag in a software-list block: the text from the end of
/// the tag's first occurrence up to the next double quote.
pub open spec fn field_of(block: Seq<char>, tag: Seq<char>) -> Option<Seq<char>> {
    match find(block, tag) {
        Some(at) => {
            let rest = block.skip(at + tag.len());
            match find(rest, "\""@) {
                Some(end) => Some(rest.take(end)),
                None => None,
            }
        },
        None => None,
    }
}

/// The value after a tag in a software-list block, up to the next quote.
pub fn field(block: &str, tag: &str) -> (r: Option<String>)
    ensures
        match field_of(block@, tag@) {
            Some(v) => r matches Some(s) && s@ == v,
            None => r is None,
        },
{
    let b = chars_of(block);
    let t = chars_of(tag);
    let bl = b.len();
    assert(b@.len() == bl);
    proof {
        lemma_find(b@, t@, 0);
    }
    match find_in(&b, &t, 0) {
        None => None,
        Some(at) => {
            let rest = slice_of(&b, at + t.len(), b.len());
            assert(rest@ == b@.skip(at + t@.len()));
            let mut quote: Vec<char> = Vec::new();
            quote.push('"');
            proof {
                reveal_strlit("\"");
                assert(quote@ == "\""@);
                lemma_find(rest@, quote@, 0);
            }
            match find_in(&rest, &quote, 0) {
                None => None,
                Some(end) => {
                    let v = slice_of(&rest, 0, end);
                    assert(v@ == rest@.take(end as int));
                    Some(string_from(v.as_slice()))
                },
            }
        },
    }
}

/// How many bytes a character takes in UTF-8.
pub open spec fn utf8_width(c: char) -> nat {
    let u = c as u32;
    if u < 0x80 {
        1
    } else if u < 0x800 {
        2
    } else if u < 0x10000 {
        3
    } else {
        4
    }
}

/// How many bytes a text takes in UTF-8 (what `str::len` counts).
pub open spec fn utf8_len(s: Seq<char>) -> nat
    decreases s.len(),
{
    if s.len() == 0 {
        0
    } else {
        utf8_len(s.drop_last()) + utf8_width(s.last())
    }
}

/// The first whitespace-separated word of a line.
pub open spec fn first_word(line: Seq<char>) -> Option<Seq<char>> {
    let t = crate::strings::trim_start(line);
    if t.len() == 0 {
        None
    } else {
        Some(t.take(word_end(t, 0)))
    }
}

/// Where the word starting at `at` ends: the first whitespace at or after it.
pub open spec fn word_end(s: Seq<char>, at: int) -> int
    decreases s.len() - at,
{
    if at < 0 || at >= s.len() {
        s.len() as int
    } else if is_whitespace(s[at]) {
        at
    } else {
        word_end(s, at + 1)
    }
}

/// The dumps a `sha1sum` listing holds, line by line: the first word of each
/// line when it is 40 bytes long, in ASCII lower case.
pub open spec fn held_hashes(lines: Seq<Seq<char>>) -> Seq<Seq<char>>
    decreases lines.len(),
{
    if lines.len() == 0 {
        Seq::empty()
    } else {
        held_hashes(lines.drop_last()) + match first_word(lines.last()) {
            Some(w) => if utf8_len(w) == 40 {
                seq![lower_seq(w)]
            } else {
                Seq::empty()
            },
            None => Seq::empty(),
        }
    }
}

fn first_word_of(line: &Vec<char>) -> (r: Option<Vec<char>>)
    ensures
        match first_word(line@) {
            Some(w) => r matches Some(v) && v@ == w,
            None => r is None,
        },
{
    let mut lo: usize = 0;
    assert(line@.skip(0) == line@);
    while lo < line.len() && is_white(line[lo])
        invariant
            lo <= line@.len(),
            crate::strings::trim_start(line@) == crate::strings::trim_start(line@.skip(lo as int)),
        decreases line@.len() - lo,
    {
        assert(line@.skip(lo as int).drop_first() == line@.skip(lo + 1));
        lo = lo + 1;
    }
    let t = slice_of(line, lo, line.len());
    assert(t@ == line@.skip(lo as int));
    assert(crate::strings::trim_start(t@) == t@) by {
        if t@.len() > 0 {
            assert(t@[0] == line@[lo as int]);
        }
    }
    if t.len() == 0 {
        return None;
    }
    let mut e: usize = 0;
    while e < t.len() && !is_white(t[e])
        invariant
            e <= t@.len(),
            word_end(t@, 0) == word_end(t@, e as int),
        decreases t@.len() - e,
    {
        e = e + 1;
    }
    let w = slice_of(&t, 0, e);
    assert(w@ == t@.take(e as int));
    Some(w)
}

fn byte_len(v: &Vec<char>) -> (n: usize)
    ensures
        n as nat == utf8_len(v@) || (n == usize::MAX && utf8_len(v@) >= usize::MAX),
{
    let mut n: usize = 0;
    let mut i: usize = 0;
    assert(v@.take(0) =~= Seq::<char>::empty());
    while i < v.len()
        invariant
            i <= v@.len(),
            n as nat == utf8_len(v@.take(i as int)),
        decreases v@.len() - i,
    {
        assert(v@.take(i + 1).drop_last() == v@.take(i as int));
        assert(v@.take(i + 1).last() == v@[i as int]);
        let u = v[i] as u32;
        let w: usize = if u < 0x80 {
            1
        } else if u < 0x800 {
            2
        } else if u < 0x10000 {
            3
        } else {
            4
        };
        if n > usize::MAX - w {
            proof {
                lemma_utf8_len_prefix(v@, i + 1);
            }
            return usize::MAX;
        }
        n = n + w;
        i = i + 1;
    }
    assert(v@.take(v@.len() as int) == v@);
    n
}

proof fn lemma_utf8_len_prefix(s: Seq<char>, k: int)
    requires
        0 <= k <= s.len(),
    ensures
        utf8_len(s.take(k)) <= utf8_len(s),
    decreases s.len() - k,
{
    if k < s.len() {
        lemma_utf8_len_prefix(s, k + 1);
        assert(s.take(k + 1).drop_last() == s.take(k));
    } else {
        assert(s.take(k) == s);
    }
}

/// The dumps a `sha1sum` listing holds: the first word of each line when it
/// is 40 bytes long, in ASCII lower case, in line order.
pub fn local_dumps(text: &str) -> (hs: Vec<String>)
    ensures
        views(hs@) == held_hashes(text_lines(text@)),
{
    let lines = lines_of(text);
    let ghost ls = text_lines(text@);
    let mut hs: Vec<String> = Vec::new();
    let mut i: usize = 0;
    assert(ls.take(0) =~= Seq::<Seq<char>>::empty());
    assert(views(hs@) =~= Seq::<Seq<char>>::empty());
    while i < lines.len()
        invariant
            views(lines@) == ls,
            i <= ls.len(),
            views(hs@) == held_hashes(ls.take(i as int)),
        decreases ls.len() - i,
    {
        assert(ls.take(i + 1).drop_last() == ls.take(i as int));
        assert(ls.take(i + 1).last() == lines@[i as int]@);
        let line = chars_of(lines[i].as_str());
        let ghost before = views(hs@);
        match first_word_of(&line) {
            Some(w) => {
                if byte_len(&w) == 40 {
                    let mut low: Vec<char> = Vec::new();
                    let mut k: usize = 0;
                    while k < w.len()
                        invariant
                            k <= w@.len(),
                            low@ == lower_seq(w@.take(k as int)),
                        decreases w@.len() - k,
                    {
                        low.push(to_lower(w[k]));
                        assert(lower_seq(w@.take(k + 1)) =~= lower_seq(w@.take(k as int)).push(
                            crate::strings::lower(w@[k as int]),
                        ));
                        k = k + 1;
                    }
                    assert(w@.take(w@.len() as int) == w@);
                    hs.push(string_from(low.as_slice()));
                    assert(views(hs@) =~= before + seq![lower_seq(w@)]);
                } else {
                    assert(views(hs@) =~= before + Seq::<Seq<char>>::empty());
                }
            },
            None => {
                assert(views(hs@) =~= before + Seq::<Seq<char>>::empty());
            },
        }
        i = i + 1;
    }
    assert(ls.take(ls.len() as int) == ls);
    hs
}

/// The blocks of a software list: the text after each `<software ` up to its
/// closing tag (or the end of the text).
pub open spec fn software_blocks(xml: Seq<char>) -> Seq<Seq<char>> {
    let pieces = split_text(xml, "<software "@);
    pieces.drop_first().map_values(|b: Seq<char>| match find(b, "</software>"@) {
        Some(end) => b.take(end),
        None => b,
    })
}

/// `str::split` on a pattern: the pieces between its occurrences.
pub open spec fn split_text(s: Seq<char>, pat: Seq<char>) -> Seq<Seq<char>>
    decreases s.len(),
{
    match find(s, pat) {
        Some(at) => if 0 <= at && pat.len() > 0 && at + pat.len() <= s.len() {
            seq![s.take(at)] + split_text(s.skip(at + pat.len()), pat)
        } else {
            seq![s]
        },
        None => seq![s],
    }
}

/// The hashes a block lists: the text after each `sha1="` up to the next
/// quote, where there is one.
pub open spec fn block_hashes(block: Seq<char>, from: int) -> Seq<Seq<char>>
    decreases block.len() + 1 - from,
{
    match find_from(block, "sha1=\""@, from) {
        Some(at) => if from <= at && at + 6 <= block.len() {
            let rest = block.skip(at + 6);
            (match find(rest, "\""@) {
                Some(end) => seq![rest.take(end)],
                None => Seq::empty(),
            }) + block_hashes(block, at + 6)
        } else {
            Seq::empty()
        },
        None => Seq::empty(),
    }
}

/// What one block states: (hash, native title) for each hash it lists, when
/// its alternate title has a native side.
pub open spec fn block_titles(block: Seq<char>) -> Seq<(Seq<char>, Seq<char>)> {
    match field_of(block, "alt_title\" value=\""@) {
        Some(alt) => match native_of(alt) {
            Some(native) => block_hashes(block, 0).map_values(|h: Seq<char>| (lower_seq(h), native)),
            None => Seq::empty(),
        },
        None => Seq::empty(),
    }
}

pub open spec fn blocks_titles(blocks: Seq<Seq<char>>) -> Seq<(Seq<char>, Seq<char>)>
    decreases blocks.len(),
{
    if blocks.len() == 0 {
        Seq::empty()
    } else {
        blocks_titles(blocks.drop_last()) + block_titles(blocks.last())
    }
}

/// (hash, native title) pairs from a MAME software list, in list order; a
/// later pair for a hash overrides an earlier one.
pub open spec fn softlist_pairs(xml: Seq<char>) -> Seq<(Seq<char>, Seq<char>)> {
    blocks_titles(software_blocks(xml))
}

pub open spec fn pair_views(v: Seq<(String, String)>) -> Seq<(Seq<char>, Seq<char>)> {
    v.map_values(|p: (String, String)| (p.0@, p.1@))
}

fn split_pieces(s: &Vec<char>, pat: &Vec<char>) -> (r: Vec<Vec<char>>)
    requires
        pat@.len() > 0,
    ensures
        r@.map_values(|v: Vec<char>| v@) == split_text(s@, pat@),
{
    let mut out: Vec<Vec<char>> = Vec::new();
    let mut from: usize = 0;
    let n = s.len();
    let ghost mut done: Seq<Seq<char>> = Seq::empty();
    assert(s@.skip(0) == s@);
    assert(out@.map_values(|v: Vec<char>| v@) =~= done);
    loop
        invariant
            n == s@.len(),
            pat@.len() > 0,
            from <= n,
            out@.map_values(|v: Vec<char>| v@) == done,
            split_text(s@, pat@) == done + split_text(s@.skip(from as int), pat@),
        decreases n - from,
    {
        proof {
            lemma_find(s@, pat@, from as int);
            lemma_find_shift(s@, pat@, from as int);
        }
        match find_in(s, pat, from) {
            Some(at) => {
                let piece = slice_of(s, from, at);
                let ghost rest = s@.skip(from as int);
                assert(piece@ == rest.take(at - from));
                assert(rest.skip(at - from + pat@.len()) =~= s@.skip(at + pat@.len()));
                let ghost before = out@.map_values(|v: Vec<char>| v@);
                out.push(piece);
                proof {
                    assert(out@.map_values(|v: Vec<char>| v@) =~= before.push(rest.take(at - from)));
                    assert(split_text(rest, pat@) == seq![rest.take(at - from)] + split_text(
                        s@.skip(at + pat@.len()),
                        pat@,
                    ));
                    assert(done + split_text(rest, pat@) =~= done.push(rest.take(at - from)) + split_text(
                        s@.skip(at + pat@.len()),
                        pat@,
                    ));
                    done = done.push(rest.take(at - from));
                }
                from = at + pat.len();
            },
            None => {
                let piece = slice_of(s, from, n);
                assert(piece@ == s@.skip(from as int));
                out.push(piece);
                proof {
                    assert(split_text(s@.skip(from as int), pat@) == seq![s@.skip(from as int)]);
                    assert(out@.map_values(|v: Vec<char>| v@) =~= done + seq![s@.skip(from as int)]);
                }
                return out;
            },
        }
    }
}

/// A match of the pattern at or after `from` is a match in the text after
/// `from`, shifted.
proof fn lemma_find_shift(s: Seq<char>, pat: Seq<char>, from: int)
    requires
        0 <= from <= s.len(),
    ensures
        match find_from(s, pat, from) {
            Some(at) => find(s.skip(from), pat) == Some(at - from),
            None => find(s.skip(from), pat) is None,
        },
{
    lemma_find_from_shift(s, pat, from, from);
}

proof fn lemma_find_from_shift(s: Seq<char>, pat: Seq<char>, from: int, k: int)
    requires
        0 <= from <= s.len(),
        from <= k <= s.len() + 1,
    ensures
        find_from(s, pat, k) == match find_from(s.skip(from), pat, k - from) {
            Some(at) => Some(at + from),
            None => None::<int>,
        },
    decreases s.len() + 1 - k,
{
    let t = s.skip(from);
    assert(t.len() == s.len() - from);
    if k <= s.len() {
        assert(crate::strings::occurs_at(s, pat, k) == crate::strings::occurs_at(t, pat, k - from)) by {
            if k + pat.len() <= s.len() {
                assert(s.subrange(k, k + pat.len()) =~= t.subrange(k - from, k - from + pat.len()));
            }
        }
        lemma_find_from_shift(s, pat, from, k + 1);
        if crate::strings::occurs_at(s, pat, k) {
            assert(find_from(s, pat, k) == Some(k));
            assert(find_from(t, pat, k - from) == Some(k - from));
        } else {
            assert(find_from(s, pat, k) == find_from(s, pat, k + 1));
            assert(find_from(t, pat, k - from) == find_from(t, pat, k - from + 1));
        }
    } else {
        assert(find_from(s, pat, k) is None);
        assert(find_from(t, pat, k - from) is None);
    }
}

fn lowered(v: &Vec<char>) -> (r: String)
    ensures
        r@ == lower_seq(v@),
{
    let mut low: Vec<char> = Vec::new();
    let mut k: usize = 0;
    while k < v.len()
        invariant
            k <= v@.len(),
            low@ == lower_seq(v@.take(k as int)),
        decreases v@.len() - k,
    {
        low.push(to_lower(v[k]));
        assert(lower_seq(v@.take(k + 1)) =~= lower_seq(v@.take(k as int)).push(crate::strings::lower(v@[k as int])));
        k = k + 1;
    }
    assert(v@.take(v@.len() as int) == v@);
    string_from(low.as_slice())
}

/// The hashes a block lists, in order.
fn hashes_in(block: &Vec<char>) -> (r: Vec<Vec<char>>)
    ensures
        r@.map_values(|v: Vec<char>| v@) == block_hashes(block@, 0),
{
    let mut pat: Vec<char> = Vec::new();
    pat.push('s');
    pat.push('h');
    pat.push('a');
    pat.push('1');
    pat.push('=');
    pat.push('"');
    let mut quote: Vec<char> = Vec::new();
    quote.push('"');
    proof {
        reveal_strlit("sha1=\"");
        reveal_strlit("\"");
        assert(pat@ =~= "sha1=\""@);
        assert(quote@ =~= "\""@);
    }
    let n = block.len();
    let mut out: Vec<Vec<char>> = Vec::new();
    let mut from: usize = 0;
    assert(out@.map_values(|v: Vec<char>| v@) =~= Seq::<Seq<char>>::empty());
    while from <= n
        invariant
            n == block@.len(),
            from <= n + 1,
            pat@ == "sha1=\""@,
            pat@.len() == 6,
            quote@ == "\""@,
            block_hashes(block@, 0) == out@.map_values(|v: Vec<char>| v@) + block_hashes(block@, from as int),
        decreases n + 1 - from,
    {
        proof {
            lemma_find(block@, pat@, from as int);
        }
        match find_in(block, &pat, from) {
            None => {
                assert(block_hashes(block@, from as int) =~= Seq::<Seq<char>>::empty());
                assert(out@.map_values(|v: Vec<char>| v@) + Seq::<Seq<char>>::empty() =~= out@.map_values(
                    |v: Vec<char>| v@,
                ));
                return out;
            },
            Some(at) => {
                let rest = slice_of(block, at + 6, n);
                assert(rest@ == block@.skip(at + 6));
                proof {
                    lemma_find(rest@, quote@, 0);
                }
                let ghost before = out@.map_values(|v: Vec<char>| v@);
                match find_in(&rest, &quote, 0) {
                    Some(end) => {
                        let h = slice_of(&rest, 0, end);
                        assert(h@ == rest@.take(end as int));
                        out.push(h);
                        assert(out@.map_values(|v: Vec<char>| v@) =~= before.push(rest@.take(end as int)));
                        assert(block_hashes(block@, from as int) == seq![rest@.take(end as int)] + block_hashes(
                            block@,
                            at + 6,
                        ));
                        assert(before + block_hashes(block@, from as int) =~= out@.map_values(|v: Vec<char>| v@)
                            + block_hashes(block@, at + 6));
                    },
                    None => {
                        assert(block_hashes(block@, from as int) =~= Seq::<Seq<char>>::empty() + block_hashes(
                            block@,
                            at + 6,
                        ));
                    },
                }
                from = at + 6;
            },
        }
    }
    assert(block_hashes(block@, from as int) =~= Seq::<Seq<char>>::empty());
    assert(out@.map_values(|v: Vec<char>| v@) + Seq::<Seq<char>>::empty() =~= out@.map_values(|v: Vec<char>| v@));
    out
}

/// (hash, native title) for each hash a MAME software list keys a native
/// title by, in list order, hashes in ASCII lower case. A later pair for a
/// hash overrides an earlier one.
pub fn softlist_titles(xml: &str) -> (r: Vec<(String, String)>)
    ensures
        pair_views(r@) == softlist_pairs(xml@),
{
    let text = chars_of(xml);
    let open = chars_of("<software ");
    let close = chars_of("</software>");
    proof {
        reveal_strlit("<software ");
    }
    let pieces = split_pieces(&text, &open);
    let ghost ps = split_text(xml@, "<software "@);
    let ghost blocks = software_blocks(xml@);
    let mut out: Vec<(String, String)> = Vec::new();
    let mut i: usize = 1;
    proof {
        lemma_split_text_nonempty(xml@, "<software "@);
    }
    assert(blocks.take(0) =~= Seq::<Seq<char>>::empty());
    assert(pair_views(out@) =~= Seq::<(Seq<char>, Seq<char>)>::empty());
    while i < pieces.len()
        invariant
            1 <= i <= pieces@.len(),
            pieces@.map_values(|v: Vec<char>| v@) == ps,
            ps == split_text(xml@, "<software "@),
            blocks == software_blocks(xml@),
            close@ == "</software>"@,
            blocks.len() == ps.len() - 1,
            pair_views(out@) == blocks_titles(blocks.take(i - 1)),
        decreases pieces@.len() - i,
    {
        let piece = &pieces[i];
        assert(piece@ == ps[i as int]);
        proof {
            lemma_find(piece@, close@, 0);
        }
        let plen = piece.len();
        let ghost found = find(ps[i as int], "</software>"@);
        assert(found == find_from(piece@, close@, 0));
        let block = match find_in(piece, &close, 0) {
            Some(end) => {
                let b = slice_of(piece, 0, end);
                assert(found == Some(end as int));
                assert(b@ =~= ps[i as int].take(end as int));
                b
            },
            None => {
                let b = slice_of(piece, 0, plen);
                assert(found is None);
                assert(b@ =~= ps[i as int]);
                b
            },
        };
        assert(ps.drop_first()[i - 1] == ps[i as int]);
        assert(blocks[i - 1] == (match find(ps[i as int], "</software>"@) {
            Some(end) => ps[i as int].take(end),
            None => ps[i as int],
        }));
        assert(block@ == blocks[i - 1]);
        assert(blocks.take(i as int).drop_last() == blocks.take(i - 1));
        assert(blocks.take(i as int).last() == block@);
        let ghost before = pair_views(out@);
        let block_text = string_from(block.as_slice());
        match field(block_text.as_str(), "alt_title\" value=\"") {
            None => {
                assert(pair_views(out@) =~= before + block_titles(block@));
            },
            Some(alt) => match native_title(alt.as_str()) {
                None => {
                    assert(pair_views(out@) =~= before + block_titles(block@));
                },
                Some(native) => {
                    let hs = hashes_in(&block);
                    let ghost hv = hs@.map_values(|v: Vec<char>| v@);
                    let mut k: usize = 0;
                    assert(before + hv.take(0).map_values(|h: Seq<char>| (lower_seq(h), native@)) =~= before);
                    while k < hs.len()
                        invariant
                            k <= hs@.len(),
                            hv == hs@.map_values(|v: Vec<char>| v@),
                            pair_views(out@) == before + hv.take(k as int).map_values(
                                |h: Seq<char>| (lower_seq(h), native@),
                            ),
                        decreases hs@.len() - k,
                    {
                        let key = lowered(&hs[k]);
                        let ghost ob = pair_views(out@);
                        out.push((key, native.clone()));
                        assert(pair_views(out@) =~= ob.push((lower_seq(hv[k as int]), native@)));
                        assert(hv.take(k + 1).map_values(|h: Seq<char>| (lower_seq(h), native@)) =~= hv.take(
                            k as int,
                        ).map_values(|h: Seq<char>| (lower_seq(h), native@)).push((lower_seq(hv[k as int]), native@)));
                        k = k + 1;
                    }
                    assert(hv.take(hs@.len() as int) == hv);
                },
            },
        }
        i = i + 1;
    }
    assert(blocks.take(blocks.len() as int) == blocks);
    out
}

proof fn lemma_split_text_nonempty(s: Seq<char>, pat: Seq<char>)
    ensures
        split_text(s, pat).len() >= 1,
    decreases s.len(),
{
    match find(s, pat) {
        Some(at) => if 0 <= at && pat.len() > 0 && at + pat.len() <= s.len() {
            lemma_split_text_nonempty(s.skip(at + pat.len()), pat);
        },
        None => {},
    }
}

/// The native title a software list gives a hash: the last pair for it.
pub open spec fn title_of(pairs: Seq<(Seq<char>, Seq<char>)>, sha1: Seq<char>) -> Option<Seq<char>>
    decreases pairs.len(),
{
    if pairs.len() == 0 {
        None
    } else if pairs.last().0 == sha1 {
        Some(pairs.last().1)
    } else {
        title_of(pairs.drop_last(), sha1)
    }
}

/// The native title a software list gives a hash, if any.
pub fn title_for(pairs: &Vec<(String, String)>, sha1: &str) -> (r: Option<String>)
    ensures
        match title_of(pair_views(pairs@), sha1@) {
            Some(t) => r matches Some(s) && s@ == t,
            None => r is None,
        },
{
    let mut k: usize = pairs.len();
    assert(pair_views(pairs@).take(k as int) == pair_views(pairs@));
    while k > 0
        invariant
            k <= pairs@.len(),
            title_of(pair_views(pairs@), sha1@) == title_of(pair_views(pairs@).take(k as int), sha1@),
        decreases k,
    {
        let ghost pre = pair_views(pairs@).take(k as int);
        assert(pre.drop_last() == pair_views(pairs@).take(k - 1));
        assert(pre.last() == (pairs@[k - 1].0@, pairs@[k - 1].1@));
        if str_eq(pairs[k - 1].0.as_str(), sha1) {
            return Some(pairs[k - 1].1.clone());
        }
        k = k - 1;
    }
    None
}


/// The lower-cased hashes of a release's dumps, in order.
pub open spec fn dump_keys(arts: Seq<Artifact>) -> Seq<Seq<char>> {
    arts.map_values(|a: Artifact| lower_seq(a.sha1@))
}

/// The title the software list gives the first of these hashes it names.
pub open spec fn first_title(pairs: Seq<(Seq<char>, Seq<char>)>, keys: Seq<Seq<char>>) -> Option<Seq<char>>
    decreases keys.len(),
{
    if keys.len() == 0 {
        None
    } else {
        match title_of(pairs, keys[0]) {
            Some(t) => Some(t),
            None => first_title(pairs, keys.drop_first()),
        }
    }
}

/// The title the software list offers a release: only an untitled release
/// of a curated game is offered one.
pub open spec fn offered_title(pairs: Seq<(Seq<char>, Seq<char>)>, curated: bool, r: Release<Sg1000>) -> Option<
    Seq<char>,
> {
    if curated && r.title is None {
        first_title(pairs, dump_keys(r.artifacts@))
    } else {
        None
    }
}

pub open spec fn has_native_script(t: Seq<char>) -> bool {
    exists|i: int| 0 <= i < t.len() && #[trigger] is_native_script(t[i])
}

/// How a release is named in the report: `sg1000/{slug} release {index}`.
pub open spec fn release_key(slug: Seq<char>, index: int) -> Seq<char> {
    "sg1000/"@ + slug + " release "@ + decimal(index as nat)
}

/// What the backfill files for a release it leaves untitled because the
/// offered title is only a romanisation.
pub open spec fn romanised_note(slug: Seq<char>, index: int, t: Seq<char>) -> (Seq<char>, Seq<char>) {
    ("Softlist gives a romanisation, not native script"@, release_key(slug, index) + ": "@ + debug_str(t)
        + " \u{2014} left empty"@)
}

/// The report lines for the first `n` releases.
pub open spec fn title_notes(pairs: Seq<(Seq<char>, Seq<char>)>, slug: Seq<char>, curated: bool, rs: Seq<Release<Sg1000>>, n: int) -> Seq<
    (Seq<char>, Seq<char>),
>
    decreases n,
{
    if n <= 0 {
        Seq::empty()
    } else {
        title_notes(pairs, slug, curated, rs, n - 1) + match offered_title(pairs, curated, rs[n - 1]) {
            Some(t) => if has_native_script(t) {
                Seq::empty()
            } else {
                seq![romanised_note(slug, n - 1, t)]
            },
            None => Seq::empty(),
        }
    }
}

/// How many of the first `n` releases the list offers a native title, or
/// (with `native` false) only a romanisation.
pub open spec fn offered_count(pairs: Seq<(Seq<char>, Seq<char>)>, curated: bool, rs: Seq<Release<Sg1000>>, n: int, native: bool) -> nat
    decreases n,
{
    if n <= 0 {
        0
    } else {
        offered_count(pairs, curated, rs, n - 1, native) + match offered_title(pairs, curated, rs[n - 1]) {
            Some(t) => if has_native_script(t) == native {
                1nat
            } else {
                0nat
            },
            None => 0nat,
        }
    }
}

proof fn lemma_offered_bounds(pairs: Seq<(Seq<char>, Seq<char>)>, slug: Seq<char>, curated: bool, rs: Seq<Release<Sg1000>>, n: int)
    requires
        0 <= n <= rs.len(),
    ensures
        offered_count(pairs, curated, rs, n, true) <= n,
        offered_count(pairs, curated, rs, n, false) <= n,
        title_notes(pairs, slug, curated, rs, n).len() == offered_count(pairs, curated, rs, n, false),
    decreases n,
{
    if n > 0 {
        lemma_offered_bounds(pairs, slug, curated, rs, n - 1);
    }
}

/// The title the software list gives the first dump of a release it names.
fn listed_title(pairs: &Vec<(String, String)>, arts: &Vec<Artifact>) -> (r: Option<String>)
    ensures
        match first_title(pair_views(pairs@), dump_keys(arts@)) {
            Some(t) => r matches Some(s) && s@ == t,
            None => r is None,
        },
{
    let ghost keys = dump_keys(arts@);
    let mut k: usize = 0;
    assert(keys.skip(0) == keys);
    while k < arts.len()
        invariant
            k <= arts@.len(),
            keys == dump_keys(arts@),
            first_title(pair_views(pairs@), keys) == first_title(pair_views(pairs@), keys.skip(k as int)),
        decreases arts@.len() - k,
    {
        let key = ascii_lowercase(arts[k].sha1.as_str());
        assert(keys.skip(k as int)[0] == key@);
        assert(keys.skip(k as int).drop_first() == keys.skip(k + 1));
        let found = title_for(pairs, key.as_str());
        if found.is_some() {
            return found;
        }
        k = k + 1;
    }
    assert(keys.skip(k as int).len() == 0);
    None
}

/// Gives each untitled release of a curated SG-1000 game the native title
/// the software list holds for one of its dumps (the first dump the list
/// names). A title with no native-script character is only a reading: the
/// release stays untitled and the report says so. Returns whether any
/// release gained a title; nothing but release titles changes.
pub fn backfill_titles(
    game: &mut Game<Sg1000>,
    slug: &str,
    pairs: &Vec<(String, String)>,
    report: &mut Report,
    stats: &mut Stats,
) -> (changed: bool)
    requires
        total_items(old(report)@) + old(game).releases@.len() < usize::MAX,
        old(stats).titled + old(game).releases@.len() <= usize::MAX,
        old(stats).skipped_romanised + old(game).releases@.len() <= usize::MAX,
        old(game).releases@.len() <= u64::MAX,
    ensures
        ({
            let olds = old(game).releases@;
            let news = final(game).releases@;
            let pv = pair_views(pairs@);
            let curated = old(game).curated;
            &&& *final(game) == (Game::<Sg1000> { releases: final(game).releases, ..*old(game) })
            &&& news.len() == olds.len()
            &&& forall|j: int|
                0 <= j < olds.len() ==> {
                    &&& #[trigger] news[j] == (Release::<Sg1000> { title: news[j].title, ..olds[j] })
                    &&& match offered_title(pv, curated, olds[j]) {
                        Some(t) => if has_native_script(t) {
                            news[j].title matches Some(s) && s@ == t
                        } else {
                            news[j].title == olds[j].title
                        },
                        None => news[j].title == olds[j].title,
                    }
                }
            &&& final(report)@ == filed(old(report)@, title_notes(pv, slug@, curated, olds, olds.len() as int))
            &&& final(stats).titled == old(stats).titled + offered_count(pv, curated, olds, olds.len() as int, true)
            &&& final(stats).skipped_romanised == old(stats).skipped_romanised + offered_count(
                pv,
                curated,
                olds,
                olds.len() as int,
                false,
            )
            &&& final(stats).sized == old(stats).sized
            &&& final(stats).skipped_no_dump == old(stats).skipped_no_dump
            &&& changed == (offered_count(pv, curated, olds, olds.len() as int, true) > 0)
        }),
{
    let ghost g0 = *game;
    let ghost olds = game.releases@;
    let ghost pv = pair_views(pairs@);
    let ghost r0 = report@;
    let ghost s0 = *stats;
    let curated = game.curated;
    proof {
        use_type_invariant(&*report);
        lemma_offered_bounds(pv, slug@, curated, olds, olds.len() as int);
        reveal_strlit("Softlist gives a romanisation, not native script");
        reveal_strlit("sg1000/");
        reveal_strlit(" release ");
        reveal_strlit(": ");
        reveal_strlit(" \u{2014} left empty");
    }
    let mut rest: Vec<Release<Sg1000>> = Vec::new();
    std::mem::swap(&mut rest, &mut game.releases);
    let n = rest.len();
    let mut done: Vec<Release<Sg1000>> = Vec::new();
    let mut changed = false;
    let mut i: usize = 0;
    while i < n
        invariant
            n == olds.len(),
            i <= n,
            rest@ == olds.skip(i as int),
            done@.len() == i,
            curated == g0.curated,
            pv == pair_views(pairs@),
            *game == (Game::<Sg1000> { releases: game.releases, ..g0 }),
            forall|j: int|
                0 <= j < i ==> {
                    &&& #[trigger] done@[j] == (Release::<Sg1000> { title: done@[j].title, ..olds[j] })
                    &&& match offered_title(pv, curated, olds[j]) {
                        Some(t) => if has_native_script(t) {
                            done@[j].title matches Some(s) && s@ == t
                        } else {
                            done@[j].title == olds[j].title
                        },
                        None => done@[j].title == olds[j].title,
                    }
                },
            total_items(r0) + n < usize::MAX,
            s0.titled + n <= usize::MAX,
            s0.skipped_romanised + n <= usize::MAX,
            n <= u64::MAX,
            distinct_headings(r0),
            report@ == filed(r0, title_notes(pv, slug@, curated, olds, i as int)),
            total_items(report@) == total_items(r0) + offered_count(pv, curated, olds, i as int, false),
            stats.titled == s0.titled + offered_count(pv, curated, olds, i as int, true),
            stats.skipped_romanised == s0.skipped_romanised + offered_count(pv, curated, olds, i as int, false),
            stats.sized == s0.sized,
            stats.skipped_no_dump == s0.skipped_no_dump,
            changed == (offered_count(pv, curated, olds, i as int, true) > 0),
            offered_count(pv, curated, olds, i as int, true) <= i,
            offered_count(pv, curated, olds, i as int, false) <= i,
        decreases n - i,
    {
        proof {
            lemma_offered_bounds(pv, slug@, curated, olds, i + 1);
            lemma_filed(r0, title_notes(pv, slug@, curated, olds, i as int));
        }
        let mut release = rest.remove(0);
        assert(release == olds[i as int]);
        assert(rest@ == olds.skip(i + 1));
        let offered = if curated && release.title.is_none() {
            listed_title(pairs, &release.artifacts)
        } else {
            None
        };
        match offered {
            Some(native) => {
                if is_romanisation(native.as_str()) {
                    let mut item = owned("sg1000/");
                    push_str(&mut item, slug);
                    push_str(&mut item, " release ");
                    let index = decimal_string(i as u64);
                    push_str(&mut item, index.as_str());
                    push_str(&mut item, ": ");
                    let quoted = debug_quoted(native.as_str());
                    push_str(&mut item, quoted.as_str());
                    push_str(&mut item, " \u{2014} left empty");
                    proof {
                        assert(item@ == romanised_note(slug@, i as int, native@).1);
                        assert(title_notes(pv, slug@, curated, olds, i + 1) == title_notes(
                            pv,
                            slug@,
                            curated,
                            olds,
                            i as int,
                        ).push(romanised_note(slug@, i as int, native@)));
                        assert(title_notes(pv, slug@, curated, olds, i + 1).drop_last() =~= title_notes(
                            pv,
                            slug@,
                            curated,
                            olds,
                            i as int,
                        ));
                    }
                    report.add("Softlist gives a romanisation, not native script", item);
                    stats.skipped_romanised = stats.skipped_romanised + 1;
                } else {
                    release.title = Some(native);
                    stats.titled = stats.titled + 1;
                    changed = true;
                    assert(title_notes(pv, slug@, curated, olds, i + 1) =~= title_notes(
                        pv,
                        slug@,
                        curated,
                        olds,
                        i as int,
                    ));
                }
            },
            None => {
                assert(title_notes(pv, slug@, curated, olds, i + 1) =~= title_notes(
                    pv,
                    slug@,
                    curated,
                    olds,
                    i as int,
                ));
            },
        }
        done.push(release);
        proof {
            lemma_filed(r0, title_notes(pv, slug@, curated, olds, i + 1));
        }
        i = i + 1;
    }
    game.releases = done;
    changed
}

} // verus!
