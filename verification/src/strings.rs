//! Character classes and string building blocks shared by the parsers.
//!
//! Every text rule of the database is stated over a string's characters
//! (`Seq<char>`), so these helpers move between `&str`/`String` and that view.
use vstd::prelude::*;
use vstd::std_specs::iter::IteratorSpec;
use vstd::string::StringExecFns;

verus! {

broadcast use vstd::string::group_string_axioms;

pub open spec fn is_digit(c: char) -> bool {
    '0' <= c <= '9'
}

pub open spec fn is_lower(c: char) -> bool {
    'a' <= c <= 'z'
}

pub open spec fn is_upper(c: char) -> bool {
    'A' <= c <= 'Z'
}

pub open spec fn is_alnum(c: char) -> bool {
    is_digit(c) || is_lower(c) || is_upper(c)
}

/// ASCII lowercasing of one character; everything but `A`..`Z` is kept.
pub open spec fn lower(c: char) -> char {
    if is_upper(c) {
        ((c as u32) + 32) as char
    } else {
        c
    }
}

pub open spec fn lower_seq(s: Seq<char>) -> Seq<char> {
    s.map_values(|c: char| lower(c))
}

/// The text `{s:?}` prints for a string: quoted, with std's debug escapes.
pub uninterp spec fn debug_str(s: Seq<char>) -> Seq<char>;

pub fn is_ascii_digit(c: char) -> (b: bool)
    ensures
        b == is_digit(c),
{
    c >= '0' && c <= '9'
}

pub fn is_ascii_alnum(c: char) -> (b: bool)
    ensures
        b == is_alnum(c),
{
    (c >= '0' && c <= '9') || (c >= 'a' && c <= 'z') || (c >= 'A' && c <= 'Z')
}

pub fn to_lower(c: char) -> (r: char)
    ensures
        r == lower(c),
{
    if c >= 'A' && c <= 'Z' {
        let b: u8 = c as u8;
        (b + 32) as char
    } else {
        c
    }
}

/// The characters of a string, in order.
pub fn chars_of(s: &str) -> (v: Vec<char>)
    ensures
        v@ == s@,
{
    let mut v: Vec<char> = Vec::new();
    let mut it = s.chars();
    assert(it.remaining() == s@);
    loop
        invariant
            v@.len() <= s@.len(),
            it.remaining() == s@.skip(v@.len() as int),
            v@ == s@.take(v@.len() as int),
        ensures
            v@ == s@,
        decreases s@.len() - v@.len(),
    {
        match it.next() {
            None => {
                assert(s@.take(v@.len() as int) == s@);
                break;
            },
            Some(c) => {
                let ghost n: int = v@.len() as int;
                assert(s@.skip(n).drop_first() == s@.skip(n + 1));
                v.push(c);
                assert(s@.take(n + 1) == s@.take(n).push(c));
            },
        }
    }
    v
}

/// Appends one character: std `String::push`, which its documentation
/// says appends the given char to the end of the string.
#[verifier::external_body]
pub(crate) fn push_char(s: &mut String, c: char)
    ensures
        final(s)@ == old(s)@.push(c),
{
    s.push(c);
}

/// Appends a string slice onto the end of the string.
pub(crate) fn push_str(s: &mut String, t: &str)
    ensures
        final(s)@ == old(s)@ + t@,
{
    s.append(t);
}

/// The quoted, escaped form std's `Debug` (`format!("{:?}")`) prints for a
/// string slice. Only its name is claimed: the same text gives the same
/// output; the escaping rules themselves are left unstated.
#[verifier::external_body]
pub(crate) fn debug_quoted(s: &str) -> (r: String)
    ensures
        r@ == debug_str(s@),
{
    format!("{s:?}")
}


/// The text `str::to_lowercase` gives: each character's Unicode lowercase
/// mapping.
pub uninterp spec fn lowercase(s: Seq<char>) -> Seq<char>;

/// The Unicode lowercase form of a string: std `str::to_lowercase`. Only
/// its name is claimed (a function of the text alone); the Unicode case
/// tables are left unstated.
#[verifier::external_body]
pub(crate) fn to_lowercase(s: &str) -> (r: String)
    ensures
        r@ == lowercase(s@),
{
    s.to_lowercase()
}

/// A string holding exactly the given characters.
pub fn string_from(v: &[char]) -> (s: String)
    ensures
        s@ == v@,
{
    let mut s = String::new();
    let mut i: usize = 0;
    while i < v.len()
        invariant
            i <= v@.len(),
            s@ == v@.take(i as int),
        decreases v@.len() - i,
    {
        push_char(&mut s, v[i]);
        assert(v@.take(i + 1) == v@.take(i as int).push(v@[i as int]));
        i = i + 1;
    }
    assert(v@.take(v@.len() as int) == v@);
    s
}

/// A copy of a string slice.
pub fn owned(t: &str) -> (s: String)
    ensures
        s@ == t@,
{
    let mut s = String::new();
    push_str(&mut s, t);
    s
}

/// The concatenation of two string slices.
pub fn concat2(a: &str, b: &str) -> (s: String)
    ensures
        s@ == a@ + b@,
{
    let mut s = String::new();
    push_str(&mut s, a);
    push_str(&mut s, b);
    s
}

pub fn concat3(a: &str, b: &str, c: &str) -> (s: String)
    ensures
        s@ == a@ + b@ + c@,
{
    let mut s = concat2(a, b);
    push_str(&mut s, c);
    s
}

/// Whether two strings hold the same characters.
pub fn str_eq(a: &str, b: &str) -> (r: bool)
    ensures
        r == (a@ == b@),
{
    let x = chars_of(a);
    let y = chars_of(b);
    if x.len() != y.len() {
        return false;
    }
    let mut i: usize = 0;
    while i < x.len()
        invariant
            x@ == a@,
            y@ == b@,
            x@.len() == y@.len(),
            i <= x@.len(),
            forall|j: int| 0 <= j < i ==> x@[j] == y@[j],
        decreases x@.len() - i,
    {
        if x[i] != y[i] {
            return false;
        }
        i = i + 1;
    }
    assert(x@ == y@);
    true
}

/// Whether a list of strings holds the given text.
pub fn contains_text(found: &Vec<String>, cand: &str) -> (b: bool)
    ensures
        b == views(found@).contains(cand@),
{
    let mut i: usize = 0;
    while i < found.len()
        invariant
            i <= found@.len(),
            forall|k: int| 0 <= k < i ==> #[trigger] found@[k]@ != cand@,
        decreases found@.len() - i,
    {
        if str_eq(found[i].as_str(), cand) {
            assert(views(found@)[i as int] == cand@);
            return true;
        }
        i = i + 1;
    }
    assert(!views(found@).contains(cand@)) by {
        if views(found@).contains(cand@) {
            let k = choose|k: int| 0 <= k < views(found@).len() && views(found@)[k] == cand@;
            assert(found@[k]@ == cand@);
        }
    }
    false
}

/// `str::to_ascii_lowercase`: ASCII capitals lowered, everything else kept.
pub fn ascii_lowercase(s: &str) -> (r: String)
    ensures
        r@ == lower_seq(s@),
{
    let v = chars_of(s);
    let mut low: Vec<char> = Vec::new();
    let mut k: usize = 0;
    while k < v.len()
        invariant
            v@ == s@,
            k <= v@.len(),
            low@ == lower_seq(v@.take(k as int)),
        decreases v@.len() - k,
    {
        low.push(to_lower(v[k]));
        assert(lower_seq(v@.take(k + 1)) =~= lower_seq(v@.take(k as int)).push(lower(v@[k as int])));
        k = k + 1;
    }
    assert(v@.take(v@.len() as int) == v@);
    string_from(low.as_slice())
}

/// The decimal digits of a natural number, most significant first.
pub open spec fn decimal(n: nat) -> Seq<char>
    decreases n,
{
    if n < 10 {
        seq![digit_char(n)]
    } else {
        decimal(n / 10) + seq![digit_char(n % 10)]
    }
}

pub open spec fn digit_char(d: nat) -> char {
    (('0' as u32) + d) as char
}

fn digit(d: u64) -> (c: char)
    requires
        d < 10,
    ensures
        c == digit_char(d as nat),
{
    let b: u8 = d as u8;
    (b + 48) as char
}


/// The number a string of decimal digits spells.
pub open spec fn digits_value(s: Seq<char>) -> int
    decreases s.len(),
{
    if s.len() == 0 {
        0
    } else {
        digits_value(s.drop_last()) * 10 + ((s.last() as u32) as int - 48)
    }
}


/// The number `str::parse::<u64>` reads from a text: an optional `+`, then
/// one or more decimal digits spelling at most `u64::MAX`; `None` otherwise.
pub open spec fn u64_text_value(s: Seq<char>) -> Option<int> {
    let d = unsigned_digits(s);
    if d.len() > 0 && all_digits(d) && digits_value(d) <= u64::MAX {
        Some(digits_value(d))
    } else {
        None
    }
}

/// A text without the one `+` sign it may start with.
pub open spec fn unsigned_digits(s: Seq<char>) -> Seq<char> {
    if s.len() > 0 && s[0] == '+' {
        s.drop_first()
    } else {
        s
    }
}

pub open spec fn all_digits(d: Seq<char>) -> bool {
    forall|i: int| 0 <= i < d.len() ==> #[trigger] is_digit(d[i])
}

/// `str::parse::<u64>`, as its documentation gives it.
pub fn parse_u64(s: &str) -> (r: Option<u64>)
    ensures
        match u64_text_value(s@) {
            Some(v) => r matches Some(n) && n == v,
            None => r is None,
        },
{
    let v = chars_of(s);
    let n = v.len();
    let start: usize = if n > 0 && v[0] == '+' {
        1
    } else {
        0
    };
    let ghost d = unsigned_digits(s@);
    assert(d =~= v@.skip(start as int));
    if start == n {
        return None;
    }
    let mut acc: u64 = 0;
    let mut over = false;
    let mut i: usize = start;
    assert(d.take(0) =~= Seq::<char>::empty());
    while i < n
        invariant
            v@ == s@,
            n == v@.len(),
            start <= i <= n,
            start < n,
            d == v@.skip(start as int),
            d == unsigned_digits(s@),
            forall|j: int| start <= j < i ==> #[trigger] is_digit(v@[j]),
            !over ==> acc == digits_value(d.take(i - start)),
            over ==> digits_value(d.take(i - start)) > u64::MAX,
        decreases n - i,
    {
        let c = v[i];
        if !is_ascii_digit(c) {
            assert(d[i - start] == c);
            assert(!is_digit(d[i - start]));
            return None;
        }
        let dig: u64 = (c as u32 - 48) as u64;
        assert(d.take(i - start + 1).drop_last() =~= d.take(i - start));
        assert(d.take(i - start + 1).last() == c);
        if !over {
            match acc.checked_mul(10) {
                Some(m) => match m.checked_add(dig) {
                    Some(total) => {
                        acc = total;
                    },
                    None => {
                        over = true;
                    },
                },
                None => {
                    over = true;
                },
            }
        }
        i = i + 1;
    }
    assert(d.take(d.len() as int) == d);
    assert forall|j: int| 0 <= j < d.len() implies #[trigger] is_digit(d[j]) by {
        assert(d[j] == v@[j + start]);
    }
    if over {
        None
    } else {
        Some(acc)
    }
}

/// Decimal writing is one-to-one: the digits spell back the number.
pub proof fn lemma_decimal_value(n: nat)
    ensures
        digits_value(decimal(n)) == n,
        decimal(n).len() >= 1,
    decreases n,
{
    if n < 10 {
        let d = decimal(n);
        assert(d == seq![digit_char(n)]);
        assert(d.drop_last() =~= Seq::<char>::empty());
        assert(digits_value(d.drop_last()) == 0);
        assert(d.last() == digit_char(n));
        assert((digit_char(n) as u32) as int == 48 + n);
        assert(digits_value(d) == digits_value(d.drop_last()) * 10 + ((d.last() as u32) as int - 48));
    } else {
        lemma_decimal_value(n / 10);
        let d = decimal(n);
        assert(d.drop_last() == decimal(n / 10));
        assert(d.last() == digit_char(n % 10));
        assert((digit_char(n % 10) as u32) as int == 48 + n % 10);
        assert(n == (n / 10) * 10 + n % 10);
    }
}

pub proof fn lemma_decimal_injective(a: nat, b: nat)
    requires
        decimal(a) == decimal(b),
    ensures
        a == b,
{
    lemma_decimal_value(a);
    lemma_decimal_value(b);
}

/// `n` written in decimal, as `{n}` formats it.
pub fn decimal_string(n: u64) -> (s: String)
    ensures
        s@ == decimal(n as nat),
    decreases n,
{
    if n < 10 {
        let mut s = String::new();
        push_char(&mut s, digit(n));
        assert(s@ == seq![digit_char(n as nat)]);
        s
    } else {
        let mut s = decimal_string(n / 10);
        push_char(&mut s, digit(n % 10));
        s
    }
}


/// `char::is_whitespace`: the Unicode `White_Space` characters.
pub open spec fn is_whitespace(c: char) -> bool {
    ('\u{9}' <= c <= '\u{d}') || c == ' ' || c == '\u{85}' || c == '\u{a0}' || c == '\u{1680}'
        || ('\u{2000}' <= c <= '\u{200a}') || c == '\u{2028}' || c == '\u{2029}' || c
        == '\u{202f}' || c == '\u{205f}' || c == '\u{3000}'
}

pub fn is_white(c: char) -> (b: bool)
    ensures
        b == is_whitespace(c),
{
    (c >= '\u{9}' && c <= '\u{d}') || c == ' ' || c == '\u{85}' || c == '\u{a0}' || c
        == '\u{1680}' || (c >= '\u{2000}' && c <= '\u{200a}') || c == '\u{2028}' || c
        == '\u{2029}' || c == '\u{202f}' || c == '\u{205f}' || c == '\u{3000}'
}

pub open spec fn trim_start(s: Seq<char>) -> Seq<char>
    decreases s.len(),
{
    if s.len() > 0 && is_whitespace(s[0]) {
        trim_start(s.drop_first())
    } else {
        s
    }
}

pub open spec fn trim_end(s: Seq<char>) -> Seq<char>
    decreases s.len(),
{
    if s.len() > 0 && is_whitespace(s.last()) {
        trim_end(s.drop_last())
    } else {
        s
    }
}

/// `str::trim`: leading and trailing whitespace removed.
pub open spec fn trim(s: Seq<char>) -> Seq<char> {
    trim_end(trim_start(s))
}

/// The pieces `str::split` yields for a one-character separator.
pub open spec fn split_on(s: Seq<char>, sep: char) -> Seq<Seq<char>>
    decreases s.len(),
{
    if s.len() == 0 {
        seq![Seq::empty()]
    } else {
        let p = split_on(s.drop_last(), sep);
        if s.last() == sep {
            p.push(Seq::empty())
        } else {
            p.update(p.len() - 1, p.last().push(s.last()))
        }
    }
}

pub proof fn lemma_split_on_nonempty(s: Seq<char>, sep: char)
    ensures
        split_on(s, sep).len() >= 1,
    decreases s.len(),
{
    if s.len() > 0 {
        lemma_split_on_nonempty(s.drop_last(), sep);
    }
}

/// The trimmed pieces that are not blank, in order.
pub open spec fn kept_words(pieces: Seq<Seq<char>>) -> Seq<Seq<char>>
    decreases pieces.len(),
{
    if pieces.len() == 0 {
        Seq::empty()
    } else {
        let w = trim(pieces.last());
        kept_words(pieces.drop_last()) + if w.len() > 0 {
            seq![w]
        } else {
            Seq::empty()
        }
    }
}

/// `text.split(sep).map(str::trim).filter(|w| !w.is_empty())`.
pub open spec fn words(text: Seq<char>, sep: char) -> Seq<Seq<char>> {
    kept_words(split_on(text, sep))
}

pub open spec fn views(v: Seq<String>) -> Seq<Seq<char>> {
    v.map_values(|s: String| s@)
}

/// The trimmed form of a piece of text.
pub fn trimmed(v: &Vec<char>) -> (r: Vec<char>)
    ensures
        r@ == trim(v@),
{
    let mut lo: usize = 0;
    assert(v@.skip(0) == v@);
    while lo < v.len() && is_white(v[lo])
        invariant
            lo <= v@.len(),
            trim_start(v@) == trim_start(v@.skip(lo as int)),
        decreases v@.len() - lo,
    {
        assert(v@.skip(lo as int).drop_first() == v@.skip(lo + 1));
        lo = lo + 1;
    }
    let mut hi: usize = v.len();
    let ghost start = v@.skip(lo as int);
    assert(trim_start(v@) == start) by {
        if lo < v@.len() {
            assert(start[0] == v@[lo as int]);
        }
    }
    while hi > lo && is_white(v[hi - 1])
        invariant
            lo <= hi <= v@.len(),
            start == v@.skip(lo as int),
            trim_end(start) == trim_end(v@.subrange(lo as int, hi as int)),
        decreases hi,
    {
        assert(v@.subrange(lo as int, hi as int).drop_last() == v@.subrange(lo as int, hi - 1));
        hi = hi - 1;
    }
    let mut r: Vec<char> = Vec::new();
    let mut k: usize = lo;
    while k < hi
        invariant
            lo <= k <= hi <= v@.len(),
            r@ == v@.subrange(lo as int, k as int),
        decreases hi - k,
    {
        r.push(v[k]);
        assert(v@.subrange(lo as int, k + 1) == v@.subrange(lo as int, k as int).push(v@[k as int]));
        k = k + 1;
    }
    assert(trim_end(r@) == r@) by {
        if r@.len() > 0 {
            assert(r@.last() == v@[hi - 1]);
        }
    }
    r
}

/// The non-blank, trimmed pieces of `text` between separators.
pub fn split_words(text: &str, sep: char) -> (out: Vec<String>)
    ensures
        views(out@) == words(text@, sep),
{
    let chars = chars_of(text);
    let mut out: Vec<String> = Vec::new();
    let mut cur: Vec<char> = Vec::new();
    let ghost mut done: Seq<Seq<char>> = Seq::empty();
    let mut i: usize = 0;
    assert(chars@.take(0) =~= Seq::<char>::empty());
    while i < chars.len()
        invariant
            chars@ == text@,
            i <= chars@.len(),
            split_on(chars@.take(i as int), sep) == done.push(cur@),
            views(out@) == kept_words(done),
        decreases chars@.len() - i,
    {
        let c = chars[i];
        assert(chars@.take(i + 1).drop_last() == chars@.take(i as int));
        assert(chars@.take(i + 1).last() == c);
        if c == sep {
            let w = trimmed(&cur);
            let ghost old_out = out@;
            if w.len() > 0 {
                out.push(string_from(w.as_slice()));
            }
            proof {
                let nd = done.push(cur@);
                assert(nd.drop_last() == done);
                assert(views(out@) == kept_words(nd)) by {
                    if w@.len() > 0 {
                        assert(views(out@) == views(old_out).push(w@));
                    } else {
                        assert(out@ == old_out);
                    }
                }
                done = nd;
            }
            cur = Vec::new();
            assert(done.push(cur@) == split_on(chars@.take(i as int), sep).push(Seq::empty()));
        } else {
            proof {
                lemma_split_on_nonempty(chars@.take(i as int), sep);
            }
            let ghost old_cur = cur@;
            cur.push(c);
            assert(done.push(cur@) == done.push(old_cur).update(done.len() as int, old_cur.push(c)));
        }
        i = i + 1;
    }
    assert(chars@.take(chars@.len() as int) == chars@);
    let w = trimmed(&cur);
    let ghost old_out = out@;
    if w.len() > 0 {
        out.push(string_from(w.as_slice()));
    }
    proof {
        let nd = done.push(cur@);
        assert(nd.drop_last() == done);
        if w@.len() > 0 {
            assert(views(out@) == views(old_out).push(w@));
        } else {
            assert(out@ == old_out);
        }
    }
    out
}


/// A line with the carriage return of a `\r\n` ending removed.
pub open spec fn strip_cr(l: Seq<char>) -> Seq<char> {
    if l.len() > 0 && l.last() == '\r' {
        l.drop_last()
    } else {
        l
    }
}

/// `str::lines`: the text split at `\n` or `\r\n`; a final line ending is
/// optional, and a last line without one keeps whatever it holds.
pub open spec fn text_lines(t: Seq<char>) -> Seq<Seq<char>> {
    let pieces = split_on(t, '\n');
    let ended = pieces.drop_last().map_values(|l: Seq<char>| strip_cr(l));
    if pieces.last().len() > 0 {
        ended.push(pieces.last())
    } else {
        ended
    }
}

fn without_cr(v: &Vec<char>) -> (r: String)
    ensures
        r@ == strip_cr(v@),
{
    if v.len() > 0 && v[v.len() - 1] == '\r' {
        let w = slice_of(v, 0, v.len() - 1);
        assert(w@ == v@.drop_last());
        string_from(w.as_slice())
    } else {
        string_from(v.as_slice())
    }
}

/// The lines of a text, as `str::lines` yields them.
pub fn lines_of(text: &str) -> (out: Vec<String>)
    ensures
        views(out@) == text_lines(text@),
{
    let chars = chars_of(text);
    let mut out: Vec<String> = Vec::new();
    let mut cur: Vec<char> = Vec::new();
    let ghost mut done: Seq<Seq<char>> = Seq::empty();
    let mut i: usize = 0;
    assert(chars@.take(0) =~= Seq::<char>::empty());
    while i < chars.len()
        invariant
            chars@ == text@,
            i <= chars@.len(),
            split_on(chars@.take(i as int), '\n') == done.push(cur@),
            views(out@) == done.map_values(|l: Seq<char>| strip_cr(l)),
        decreases chars@.len() - i,
    {
        let c = chars[i];
        assert(chars@.take(i + 1).drop_last() == chars@.take(i as int));
        assert(chars@.take(i + 1).last() == c);
        if c == '\n' {
            let line = without_cr(&cur);
            let ghost old_out = out@;
            out.push(line);
            proof {
                let nd = done.push(cur@);
                assert(views(out@) =~= views(old_out).push(line@));
                assert(nd.map_values(|l: Seq<char>| strip_cr(l)) =~= done.map_values(
                    |l: Seq<char>| strip_cr(l),
                ).push(strip_cr(cur@)));
                done = nd;
            }
            cur = Vec::new();
            assert(done.push(cur@) == split_on(chars@.take(i as int), '\n').push(Seq::empty()));
        } else {
            proof {
                lemma_split_on_nonempty(chars@.take(i as int), '\n');
            }
            let ghost old_cur = cur@;
            cur.push(c);
            assert(done.push(cur@) == done.push(old_cur).update(done.len() as int, old_cur.push(c)));
        }
        i = i + 1;
    }
    assert(chars@.take(chars@.len() as int) == chars@);
    let ghost pieces = split_on(text@, '\n');
    assert(pieces.drop_last() == done);
    assert(pieces.last() == cur@);
    if cur.len() > 0 {
        let ghost old_out = out@;
        out.push(string_from(cur.as_slice()));
        assert(views(out@) =~= views(old_out).push(cur@));
    }
    out
}

/// How many of the strings equal `x`.
pub open spec fn count_equal(forms: Seq<Seq<char>>, x: Seq<char>) -> nat
    decreases forms.len(),
{
    if forms.len() == 0 {
        0
    } else {
        count_equal(forms.drop_last(), x) + if forms.last() == x {
            1nat
        } else {
            0nat
        }
    }
}

/// How many of the strings equal `x`.
pub fn count_text(forms: &Vec<String>, x: &String) -> (n: usize)
    ensures
        n == count_equal(views(forms@), x@),
{
    let mut n: usize = 0;
    let mut i: usize = 0;
    while i < forms.len()
        invariant
            i <= forms@.len(),
            n == count_equal(views(forms@).take(i as int), x@),
            n <= i,
        decreases forms@.len() - i,
    {
        assert(views(forms@).take(i + 1).drop_last() == views(forms@).take(i as int));
        assert(views(forms@).take(i + 1).last() == forms@[i as int]@);
        if str_eq(forms[i].as_str(), x.as_str()) {
            n = n + 1;
        }
        i = i + 1;
    }
    assert(views(forms@).take(forms@.len() as int) == views(forms@));
    n
}

/// ASCII lowercasing shifts exactly `A`..`Z` up to `a`..`z`.
pub proof fn lemma_lower(c: char)
    ensures
        is_upper(c) ==> (lower(c) as u32) == (c as u32) + 32 && is_lower(lower(c)),
        !is_upper(c) ==> lower(c) == c,
{
}

} // verus!

verus! {

/// Whether `s` ends with `suffix`.
pub open spec fn ends_with(s: Seq<char>, suffix: Seq<char>) -> bool {
    suffix.len() <= s.len() && s.subrange(s.len() - suffix.len(), s.len() as int) == suffix
}

/// Whether `s` starts with `prefix`.
pub open spec fn starts_with(s: Seq<char>, prefix: Seq<char>) -> bool {
    prefix.len() <= s.len() && s.take(prefix.len() as int) == prefix
}

/// Whether `pat` occurs in `s` starting at `at`.
pub open spec fn occurs_at(s: Seq<char>, pat: Seq<char>, at: int) -> bool {
    0 <= at && at + pat.len() <= s.len() && s.subrange(at, at + pat.len()) == pat
}

/// The last position at or below `at` where `pat` occurs.
pub open spec fn rfind_from(s: Seq<char>, pat: Seq<char>, at: int) -> Option<int>
    decreases at + 1,
{
    if at < 0 {
        None
    } else if occurs_at(s, pat, at) {
        Some(at)
    } else {
        rfind_from(s, pat, at - 1)
    }
}

/// `str::rfind`: the last position where `pat` occurs.
pub open spec fn rfind(s: Seq<char>, pat: Seq<char>) -> Option<int> {
    rfind_from(s, pat, s.len() as int)
}

/// The first position at or above `at` where `pat` occurs.
pub open spec fn find_from(s: Seq<char>, pat: Seq<char>, at: int) -> Option<int>
    decreases s.len() + 1 - at,
{
    if at > s.len() || at < 0 {
        None
    } else if occurs_at(s, pat, at) {
        Some(at)
    } else {
        find_from(s, pat, at + 1)
    }
}

/// `str::find`: the first position where `pat` occurs.
pub open spec fn find(s: Seq<char>, pat: Seq<char>) -> Option<int> {
    find_from(s, pat, 0)
}

proof fn lemma_rfind_from_bounds(s: Seq<char>, pat: Seq<char>, at: int)
    ensures
        rfind_from(s, pat, at) matches Some(k) ==> 0 <= k <= at && occurs_at(s, pat, k),
    decreases at + 1,
{
    if at >= 0 && !occurs_at(s, pat, at) {
        lemma_rfind_from_bounds(s, pat, at - 1);
    }
}

pub proof fn lemma_rfind(s: Seq<char>, pat: Seq<char>)
    ensures
        rfind(s, pat) matches Some(k) ==> 0 <= k && k + pat.len() <= s.len() && occurs_at(s, pat, k),
{
    lemma_rfind_from_bounds(s, pat, s.len() as int);
}

proof fn lemma_find_from_bounds(s: Seq<char>, pat: Seq<char>, at: int)
    ensures
        find_from(s, pat, at) matches Some(k) ==> at <= k && occurs_at(s, pat, k),
    decreases s.len() + 1 - at,
{
    if 0 <= at <= s.len() && !occurs_at(s, pat, at) {
        lemma_find_from_bounds(s, pat, at + 1);
    }
}

pub proof fn lemma_find(s: Seq<char>, pat: Seq<char>, at: int)
    ensures
        find_from(s, pat, at) matches Some(k) ==> at <= k && k + pat.len() <= s.len() && occurs_at(s, pat, k),
{
    lemma_find_from_bounds(s, pat, at);
}

/// `str::trim_end`: trailing whitespace removed.
pub fn trimmed_end(v: &Vec<char>) -> (r: Vec<char>)
    ensures
        r@ == trim_end(v@),
{
    let mut hi: usize = v.len();
    assert(v@.subrange(0, hi as int) == v@);
    while hi > 0 && is_white(v[hi - 1])
        invariant
            hi <= v@.len(),
            trim_end(v@) == trim_end(v@.subrange(0, hi as int)),
        decreases hi,
    {
        assert(v@.subrange(0, hi as int).drop_last() == v@.subrange(0, hi - 1));
        hi = hi - 1;
    }
    let r = slice_of(v, 0, hi);
    assert(trim_end(r@) == r@) by {
        if r@.len() > 0 {
            assert(r@.last() == v@[hi - 1]);
        }
    }
    r
}

/// The characters `v[lo..hi]`.
pub fn slice_of(v: &Vec<char>, lo: usize, hi: usize) -> (r: Vec<char>)
    requires
        lo <= hi <= v@.len(),
    ensures
        r@ == v@.subrange(lo as int, hi as int),
{
    let mut r: Vec<char> = Vec::new();
    let mut k: usize = lo;
    while k < hi
        invariant
            lo <= k <= hi <= v@.len(),
            r@ == v@.subrange(lo as int, k as int),
        decreases hi - k,
    {
        r.push(v[k]);
        assert(v@.subrange(lo as int, k + 1) == v@.subrange(lo as int, k as int).push(v@[k as int]));
        k = k + 1;
    }
    r
}

/// Whether `pat` occurs in `v` at `at`.
pub fn matches_at(v: &Vec<char>, pat: &Vec<char>, at: usize) -> (b: bool)
    ensures
        b == occurs_at(v@, pat@, at as int),
{
    let n = v.len();
    if at > n || pat.len() > n - at {
        return false;
    }
    let mut k: usize = 0;
    while k < pat.len()
        invariant
            n == v@.len(),
            at + pat@.len() <= v@.len(),
            k <= pat@.len(),
            forall|j: int| 0 <= j < k ==> v@[at + j] == pat@[j],
        decreases pat@.len() - k,
    {
        if v[at + k] != pat[k] {
            assert(v@.subrange(at as int, at + pat@.len())[k as int] != pat@[k as int]);
            return false;
        }
        k = k + 1;
    }
    assert(v@.subrange(at as int, at + pat@.len()) =~= pat@);
    true
}

/// The last position `pat` occurs at in `v`, as `str::rfind` finds it.
pub fn rfind_in(v: &Vec<char>, pat: &Vec<char>) -> (r: Option<usize>)
    ensures
        match rfind(v@, pat@) {
            Some(at) => r == Some(at as usize),
            None => r is None,
        },
{
    let mut at: usize = v.len();
    loop
        invariant
            at <= v@.len(),
            rfind(v@, pat@) == rfind_from(v@, pat@, at as int),
        decreases at,
    {
        if matches_at(v, pat, at) {
            return Some(at);
        }
        if at == 0 {
            assert(rfind_from(v@, pat@, -1) is None);
            return None;
        }
        at = at - 1;
    }
}

/// The first position `pat` occurs at in `v` at or after `from`.
pub fn find_in(v: &Vec<char>, pat: &Vec<char>, from: usize) -> (r: Option<usize>)
    requires
        from <= v@.len(),
    ensures
        match find_from(v@, pat@, from as int) {
            Some(at) => r == Some(at as usize),
            None => r is None,
        },
{
    let n = v.len();
    let mut at: usize = from;
    loop
        invariant
            n == v@.len(),
            from <= at <= v@.len(),
            find_from(v@, pat@, from as int) == find_from(v@, pat@, at as int),
        decreases v@.len() - at,
    {
        if matches_at(v, pat, at) {
            return Some(at);
        }
        if at == n {
            assert(find_from(v@, pat@, at + 1) is None);
            return None;
        }
        at = at + 1;
    }
}


/// Lines written one after another, each ended by a line feed.
pub open spec fn joined_lines(ls: Seq<Seq<char>>) -> Seq<char>
    decreases ls.len(),
{
    if ls.len() == 0 {
        Seq::empty()
    } else {
        joined_lines(ls.drop_last()) + ls.last() + seq!['\n']
    }
}

/// No character of `s` is `c`.
pub open spec fn free_of(s: Seq<char>, c: char) -> bool {
    forall|i: int| 0 <= i < s.len() ==> s[i] != c
}

/// A plain line: no line feed and no carriage return in it.
pub open spec fn plain_line(l: Seq<char>) -> bool {
    free_of(l, '\n') && free_of(l, '\r')
}

pub proof fn lemma_joined_concat(a: Seq<Seq<char>>, b: Seq<Seq<char>>)
    ensures
        joined_lines(a + b) == joined_lines(a) + joined_lines(b),
    decreases b.len(),
{
    if b.len() == 0 {
        assert(a + b =~= a);
    } else {
        lemma_joined_concat(a, b.drop_last());
        assert((a + b).drop_last() =~= a + b.drop_last());
    }
}

proof fn lemma_split_on_plain_tail(s: Seq<char>, l: Seq<char>, sep: char)
    requires
        free_of(l, sep),
    ensures
        split_on(s + l, sep) == split_on(s, sep).update(
            split_on(s, sep).len() - 1,
            split_on(s, sep).last() + l,
        ),
    decreases l.len(),
{
    lemma_split_on_nonempty(s, sep);
    if l.len() == 0 {
        assert(s + l =~= s);
        assert(split_on(s, sep).last() + l =~= split_on(s, sep).last());
        assert(split_on(s, sep).update(split_on(s, sep).len() - 1, split_on(s, sep).last())
            =~= split_on(s, sep));
    } else {
        let l0 = l.drop_last();
        lemma_split_on_plain_tail(s, l0, sep);
        assert((s + l).drop_last() =~= s + l0);
        assert((s + l).last() == l.last());
        assert(split_on(s, sep).last() + l0 + seq![l.last()] =~= split_on(s, sep).last() + l);
        let p = split_on(s, sep);
        let q = p.update(p.len() - 1, p.last() + l0);
        assert(q.len() == p.len());
        assert(q.last() == p.last() + l0);
        assert(q.last().push(l.last()) =~= p.last() + l);
        assert(q.update(q.len() - 1, q.last().push(l.last())) =~= p.update(p.len() - 1, p.last() + l));
    }
}

/// The pieces of `joined_lines(ls)` are its lines and an empty rest.
pub proof fn lemma_split_joined(ls: Seq<Seq<char>>)
    requires
        forall|k: int| 0 <= k < ls.len() ==> free_of(#[trigger] ls[k], '\n'),
    ensures
        split_on(joined_lines(ls), '\n') == ls.push(Seq::empty()),
    decreases ls.len(),
{
    if ls.len() == 0 {
        assert(split_on(Seq::<char>::empty(), '\n') =~= seq![Seq::<char>::empty()]);
        assert(ls.push(Seq::empty()) =~= seq![Seq::<char>::empty()]);
    } else {
        let front = ls.drop_last();
        lemma_split_joined(front);
        let j0 = joined_lines(front);
        let l = ls.last();
        lemma_split_on_plain_tail(j0, l, '\n');
        assert(front.push(Seq::empty()).update(front.len() as int, Seq::<char>::empty() + l) =~= ls);
        let j1 = j0 + l;
        assert((j1 + seq!['\n']).drop_last() =~= j1);
        assert(joined_lines(ls) == j1 + seq!['\n']);
    }
}

/// Reading back joined plain lines gives the lines.
pub proof fn lemma_text_lines_joined(ls: Seq<Seq<char>>)
    requires
        forall|k: int| 0 <= k < ls.len() ==> plain_line(#[trigger] ls[k]),
    ensures
        text_lines(joined_lines(ls)) == ls,
{
    assert forall|k: int| 0 <= k < ls.len() implies free_of(#[trigger] ls[k], '\n') by {
        assert(plain_line(ls[k]));
    }
    lemma_split_joined(ls);
    let pieces = ls.push(Seq::<char>::empty());
    assert(pieces.drop_last() =~= ls);
    assert forall|k: int| 0 <= k < ls.len() implies strip_cr(#[trigger] ls[k]) == ls[k] by {
        assert(plain_line(ls[k]));
        if ls[k].len() > 0 {
            assert(ls[k][ls[k].len() - 1] != '\r');
        }
    }
    assert(ls.map_values(|l: Seq<char>| strip_cr(l)) =~= ls);
}

proof fn lemma_split_on_free(s: Seq<char>, sep: char, x: char)
    requires
        free_of(s, x),
    ensures
        forall|k: int|
            0 <= k < split_on(s, sep).len() ==> free_of(#[trigger] split_on(s, sep)[k], x) && free_of(
                split_on(s, sep)[k],
                sep,
            ),
    decreases s.len(),
{
    if s.len() > 0 {
        let s0 = s.drop_last();
        assert(free_of(s0, x));
        lemma_split_on_free(s0, sep, x);
        lemma_split_on_nonempty(s0, sep);
        let p = split_on(s0, sep);
        if s.last() != sep {
            assert(s[s.len() - 1] != x);
            assert forall|k: int| 0 <= k < split_on(s, sep).len() implies free_of(
                #[trigger] split_on(s, sep)[k],
                x,
            ) && free_of(split_on(s, sep)[k], sep) by {
                if k == p.len() - 1 {
                    assert(split_on(s, sep)[k] == p.last().push(s.last()));
                    assert(free_of(p[k], x) && free_of(p[k], sep));
                } else {
                    assert(split_on(s, sep)[k] == p[k]);
                }
            }
        } else {
            assert forall|k: int| 0 <= k < split_on(s, sep).len() implies free_of(
                #[trigger] split_on(s, sep)[k],
                x,
            ) && free_of(split_on(s, sep)[k], sep) by {
                if k < p.len() {
                    assert(split_on(s, sep)[k] == p[k]);
                }
            }
        }
    }
}

/// The lines of a text with no carriage return in it are plain lines.
pub proof fn lemma_text_lines_plain(t: Seq<char>)
    requires
        free_of(t, '\r'),
    ensures
        forall|k: int| 0 <= k < text_lines(t).len() ==> plain_line(#[trigger] text_lines(t)[k]),
{
    lemma_split_on_free(t, '\n', '\r');
    lemma_split_on_nonempty(t, '\n');
    let pieces = split_on(t, '\n');
    assert forall|k: int| 0 <= k < text_lines(t).len() implies plain_line(#[trigger] text_lines(t)[k]) by {
        if k < pieces.len() - 1 {
            assert(text_lines(t)[k] == strip_cr(pieces[k]));
            let p = pieces[k];
            if p.len() > 0 && p.last() == '\r' {
                assert(strip_cr(p) == p.drop_last());
            }
        } else {
            assert(text_lines(t)[k] == pieces.last());
        }
    }
}

/// A run of whitespace in front of a text is what `trim_start` removes.
pub proof fn lemma_trim_start_after_blank(w: Seq<char>, x: Seq<char>)
    requires
        forall|i: int| 0 <= i < w.len() ==> is_whitespace(#[trigger] w[i]),
    ensures
        trim_start(w + x) == trim_start(x),
    decreases w.len(),
{
    if w.len() > 0 {
        assert((w + x)[0] == w[0]);
        assert((w + x).drop_first() =~= w.drop_first() + x);
        lemma_trim_start_after_blank(w.drop_first(), x);
    } else {
        assert(w + x =~= x);
    }
}

} // verus!
