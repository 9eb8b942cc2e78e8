//! Identifier types: dump hashes, directory slugs and dates. Each is a
//! validated string; a value of the type always holds the checked form.
use vstd::prelude::*;

use crate::strings::{
    chars_of, concat2, concat3, debug_quoted, debug_str, is_ascii_digit, is_digit, is_lower, is_upper, lemma_lower, lower,
    lower_seq, string_from, to_lower,
};

verus! {

broadcast use vstd::string::group_string_axioms;

/// A character a SHA-1 may be written with, in either case.
pub open spec fn is_hex(c: char) -> bool {
    is_digit(c) || 'a' <= c <= 'f' || 'A' <= c <= 'F'
}

/// A character of a stored (lowercase) SHA-1.
pub open spec fn is_lower_hex(c: char) -> bool {
    is_digit(c) || 'a' <= c <= 'f'
}

/// Text a SHA-1 may be parsed from: forty hex digits, any case.
pub open spec fn is_sha1_text(s: Seq<char>) -> bool {
    s.len() == 40 && forall|i: int| 0 <= i < s.len() ==> #[trigger] is_hex(s[i])
}

/// The form a SHA-1 is stored in: forty lowercase hex digits.
pub open spec fn is_sha1_form(s: Seq<char>) -> bool {
    s.len() == 40 && forall|i: int| 0 <= i < s.len() ==> #[trigger] is_lower_hex(s[i])
}

pub open spec fn sha1_error(s: Seq<char>) -> Seq<char> {
    "not a 40-digit hex sha1: "@ + debug_str(lower_seq(s))
}

/// A SHA-1 digest in lowercase hex; uppercase input is normalized.
#[derive(PartialEq, Eq, Hash, Debug)]
pub struct Sha1(String);

impl Clone for Sha1 {
    fn clone(&self) -> (r: Self)
        ensures
            r@ == self@,
    {
        proof {
            use_type_invariant(self);
        }
        Sha1(self.0.clone())
    }
}

impl View for Sha1 {
    type V = Seq<char>;

    closed spec fn view(&self) -> Seq<char> {
        self.0@
    }
}

impl Sha1 {
    #[verifier::type_invariant]
    closed spec fn wf(self) -> bool {
        is_sha1_form(self.0@)
    }

    pub fn as_str(&self) -> (r: &str)
        ensures
            r@ == self@,
            is_sha1_form(self@),
    {
        proof {
            use_type_invariant(self);
        }
        self.0.as_str()
    }

    /// Parses a SHA-1, lowercasing it; anything but forty hex digits is refused.
    pub fn parse(value: &str) -> (r: Result<Sha1, String>)
        ensures
            r is Ok <==> is_sha1_text(value@),
            r matches Ok(h) ==> h@ == lower_seq(value@),
            r matches Err(e) ==> e@ == sha1_error(value@),
    {
        let chars = chars_of(value);
        let mut lowered: Vec<char> = Vec::new();
        let mut all_hex = true;
        let mut i: usize = 0;
        while i < chars.len()
            invariant
                chars@ == value@,
                i <= chars@.len(),
                lowered@ == lower_seq(chars@.take(i as int)),
                all_hex == forall|j: int| 0 <= j < i ==> #[trigger] is_hex(chars@[j]),
            decreases chars@.len() - i,
        {
            let c = chars[i];
            let hex = is_ascii_digit(c) || (c >= 'a' && c <= 'f') || (c >= 'A' && c <= 'F');
            proof {
                assert(hex == is_hex(chars@[i as int]));
            }
            all_hex = all_hex && hex;
            lowered.push(to_lower(c));
            assert(chars@.take(i + 1) == chars@.take(i as int).push(c));
            i = i + 1;
        }
        assert(chars@.take(chars@.len() as int) == chars@);
        let text = string_from(lowered.as_slice());
        if chars.len() == 40 && all_hex {
            proof {
                assert forall|j: int| 0 <= j < text@.len() implies #[trigger] is_lower_hex(
                    text@[j],
                ) by {
                    assert(is_hex(chars@[j]));
                }
            }
            Ok(Sha1(text))
        } else {
            let quoted = debug_quoted(text.as_str());
            Err(concat2("not a 40-digit hex sha1: ", quoted.as_str()))
        }
    }
}

impl core::str::FromStr for Sha1 {
    type Err = String;

    fn from_str(s: &str) -> (r: Result<Self, Self::Err>)
        ensures
            r is Ok <==> is_sha1_text(s@),
            r matches Ok(h) ==> h@ == lower_seq(s@),
            r matches Err(e) ==> e@ == sha1_error(s@),
    {
        Sha1::parse(s)
    }
}

/// A character a slug may hold: lowercase alphanumerics, `-` and `_`.
pub open spec fn is_slug_char(c: char) -> bool {
    is_lower(c) || is_digit(c) || c == '-' || c == '_'
}

pub open spec fn is_slug_text(s: Seq<char>) -> bool {
    s.len() > 0 && forall|i: int| 0 <= i < s.len() ==> #[trigger] is_slug_char(s[i])
}

pub open spec fn slug_error(s: Seq<char>) -> Seq<char> {
    "invalid slug "@ + debug_str(s) + ": expected lowercase alphanumerics, '-' or '_'"@
}

/// A game's directory name: lowercase alphanumerics, `-`, `_`.
#[derive(PartialEq, Eq, Hash, Debug)]
pub struct Slug(String);

impl Clone for Slug {
    fn clone(&self) -> (r: Self)
        ensures
            r@ == self@,
    {
        proof {
            use_type_invariant(self);
        }
        Slug(self.0.clone())
    }
}

impl View for Slug {
    type V = Seq<char>;

    closed spec fn view(&self) -> Seq<char> {
        self.0@
    }
}

impl Slug {
    #[verifier::type_invariant]
    closed spec fn wf(self) -> bool {
        is_slug_text(self.0@)
    }

    pub fn as_str(&self) -> (r: &str)
        ensures
            r@ == self@,
            is_slug_text(self@),
    {
        proof {
            use_type_invariant(self);
        }
        self.0.as_str()
    }

    pub fn parse(s: &str) -> (r: Result<Slug, String>)
        ensures
            r is Ok <==> is_slug_text(s@),
            r matches Ok(slug) ==> slug@ == s@,
            r matches Err(e) ==> e@ == slug_error(s@),
    {
        let chars = chars_of(s);
        let mut ok = chars.len() > 0;
        let mut i: usize = 0;
        while i < chars.len()
            invariant
                chars@ == s@,
                i <= chars@.len(),
                ok == (chars@.len() > 0 && forall|j: int|
                    0 <= j < i ==> #[trigger] is_slug_char(chars@[j])),
            decreases chars@.len() - i,
        {
            let c = chars[i];
            let good = (c >= 'a' && c <= 'z') || is_ascii_digit(c) || c == '-' || c == '_';
            assert(good == is_slug_char(chars@[i as int]));
            ok = ok && good;
            i = i + 1;
        }
        if ok {
            Ok(Slug(string_from(chars.as_slice())))
        } else {
            let quoted = debug_quoted(s);
            Err(concat3(
                "invalid slug ",
                quoted.as_str(),
                ": expected lowercase alphanumerics, '-' or '_'",
            ))
        }
    }
}

impl core::str::FromStr for Slug {
    type Err = String;

    fn from_str(s: &str) -> (r: Result<Self, Self::Err>)
        ensures
            r is Ok <==> is_slug_text(s@),
            r matches Ok(slug) ==> slug@ == s@,
            r matches Err(e) ==> e@ == slug_error(s@),
    {
        Slug::parse(s)
    }
}

pub open spec fn digits(s: Seq<char>, lo: int, hi: int) -> bool {
    forall|i: int| lo <= i < hi ==> #[trigger] is_digit(s[i])
}

/// The two-digit number written at `at`.
pub open spec fn two(s: Seq<char>, at: int) -> int {
    ((s[at] as int) - 48) * 10 + ((s[at + 1] as int) - 48)
}

/// Whether a date string is valid, and whether it states a month and a day:
/// "YYYY", "YYYY-MM" (month 1..=12) or "YYYY-MM-DD" (day 1..=31).
pub open spec fn year_month_day(s: Seq<char>) -> (bool, bool, bool) {
    if s.len() == 4 {
        (digits(s, 0, 4), false, false)
    } else if s.len() == 7 {
        (digits(s, 0, 4) && s[4] == '-' && digits(s, 5, 7) && 1 <= two(s, 5) <= 12, true, false)
    } else if s.len() == 10 {
        (
            digits(s, 0, 4) && s[4] == '-' && digits(s, 5, 7) && 1 <= two(s, 5) <= 12 && s[7]
                == '-' && digits(s, 8, 10) && 1 <= two(s, 8) <= 31,
            true,
            true,
        )
    } else {
        (false, false, false)
    }
}

pub open spec fn is_release_date_text(s: Seq<char>) -> bool {
    year_month_day(s).0
}

pub open spec fn is_day_text(s: Seq<char>) -> bool {
    year_month_day(s) == (true, true, true)
}

pub open spec fn release_date_error(s: Seq<char>) -> Seq<char> {
    "invalid date "@ + debug_str(s) + ": expected YYYY, YYYY-MM, or YYYY-MM-DD"@
}

pub open spec fn day_error(s: Seq<char>) -> Seq<char> {
    "invalid date "@ + debug_str(s) + ": expected YYYY-MM-DD"@
}

fn all_digits(v: &Vec<char>, lo: usize, hi: usize) -> (b: bool)
    requires
        lo <= hi <= v@.len(),
    ensures
        b == digits(v@, lo as int, hi as int),
{
    let mut i = lo;
    while i < hi
        invariant
            lo <= i <= hi <= v@.len(),
            forall|j: int| lo <= j < i ==> #[trigger] is_digit(v@[j]),
        decreases hi - i,
    {
        if !is_ascii_digit(v[i]) {
            return false;
        }
        i = i + 1;
    }
    true
}

fn two_digits(v: &Vec<char>, at: usize) -> (n: u8)
    requires
        at + 1 < v@.len() <= 10,
        digits(v@, at as int, at + 2),
    ensures
        n == two(v@, at as int),
{
    assert(is_digit(v@[at as int]) && is_digit(v@[at + 1]));
    let a: u8 = v[at] as u8;
    let next = at + 1;
    let b: u8 = v[next] as u8;
    (a - 48) * 10 + (b - 48)
}

/// The month/day checks shared by both date types.
pub fn valid_year_month_day(value: &str) -> (r: (bool, bool, bool))
    ensures
        r == year_month_day(value@),
{
    let b = chars_of(value);
    let n = b.len();
    if n == 4 {
        (all_digits(&b, 0, 4), false, false)
    } else if n == 7 {
        let ok = all_digits(&b, 0, 4) && b[4] == '-' && all_digits(&b, 5, 7) && {
            let m = two_digits(&b, 5);
            1 <= m && m <= 12
        };
        (ok, true, false)
    } else if n == 10 {
        let ok = all_digits(&b, 0, 4) && b[4] == '-' && all_digits(&b, 5, 7) && {
            let m = two_digits(&b, 5);
            1 <= m && m <= 12
        } && b[7] == '-' && all_digits(&b, 8, 10) && {
            let d = two_digits(&b, 8);
            1 <= d && d <= 31
        };
        (ok, true, true)
    } else {
        (false, false, false)
    }
}

/// A valid date holds only ASCII digits and dashes, so its characters are ASCII.
proof fn lemma_date_ascii(s: Seq<char>)
    requires
        is_release_date_text(s),
    ensures
        vstd::utf8::is_ascii_chars(s),
        s.len() >= 4,
        digits(s, 0, 4),
{
    assert forall|i: int| 0 <= i < s.len() implies '\0' <= #[trigger] s[i] <= '\u{7f}' by {
        if i < 4 || (s.len() >= 7 && 5 <= i < 7) || (s.len() == 10 && 8 <= i < 10) {
            assert(is_digit(s[i]));
        }
    }
}

/// A release date at whatever precision is known: "1998", "1998-03", or "1998-03-01".
#[derive(PartialEq, Eq, PartialOrd, Ord, Hash, Debug)]
pub struct ReleaseDate(String);

impl Clone for ReleaseDate {
    fn clone(&self) -> (r: Self)
        ensures
            r@ == self@,
    {
        proof {
            use_type_invariant(self);
        }
        ReleaseDate(self.0.clone())
    }
}

impl View for ReleaseDate {
    type V = Seq<char>;

    closed spec fn view(&self) -> Seq<char> {
        self.0@
    }
}

impl ReleaseDate {
    #[verifier::type_invariant]
    closed spec fn wf(self) -> bool {
        is_release_date_text(self.0@)
    }

    pub fn as_str(&self) -> (r: &str)
        ensures
            r@ == self@,
            is_release_date_text(self@),
    {
        proof {
            use_type_invariant(self);
        }
        self.0.as_str()
    }

    /// The four-digit year prefix.
    pub fn year(&self) -> (r: &str)
        ensures
            r@ == self@.take(4),
            digits(r@, 0, 4),
            r@.len() == 4,
    {
        proof {
            use_type_invariant(self);
            lemma_date_ascii(self.0@);
        }
        self.0.as_str().substring_ascii(0, 4)
    }

    pub fn parse(value: &str) -> (r: Result<ReleaseDate, String>)
        ensures
            r is Ok <==> is_release_date_text(value@),
            r matches Ok(d) ==> d@ == value@,
            r matches Err(e) ==> e@ == release_date_error(value@),
    {
        let (ok, _, _) = valid_year_month_day(value);
        if ok {
            Ok(ReleaseDate(string_from(chars_of(value).as_slice())))
        } else {
            let quoted = debug_quoted(value);
            Err(concat3("invalid date ", quoted.as_str(), ": expected YYYY, YYYY-MM, or YYYY-MM-DD"))
        }
    }
}

impl core::str::FromStr for ReleaseDate {
    type Err = String;

    fn from_str(s: &str) -> (r: Result<Self, Self::Err>)
        ensures
            r is Ok <==> is_release_date_text(s@),
            r matches Ok(d) ==> d@ == s@,
            r matches Err(e) ==> e@ == release_date_error(s@),
    {
        ReleaseDate::parse(s)
    }
}

/// A precise calendar day, "YYYY-MM-DD" — event stamps, not publication dates.
#[derive(PartialEq, Eq, PartialOrd, Ord, Hash, Debug)]
pub struct Date(String);

impl Clone for Date {
    fn clone(&self) -> (r: Self)
        ensures
            r@ == self@,
    {
        proof {
            use_type_invariant(self);
        }
        Date(self.0.clone())
    }
}

impl View for Date {
    type V = Seq<char>;

    closed spec fn view(&self) -> Seq<char> {
        self.0@
    }
}

impl Date {
    #[verifier::type_invariant]
    closed spec fn wf(self) -> bool {
        is_day_text(self.0@)
    }

    pub fn as_str(&self) -> (r: &str)
        ensures
            r@ == self@,
            is_day_text(self@),
    {
        proof {
            use_type_invariant(self);
        }
        self.0.as_str()
    }

    pub fn parse(value: &str) -> (r: Result<Date, String>)
        ensures
            r is Ok <==> is_day_text(value@),
            r matches Ok(d) ==> d@ == value@,
            r matches Err(e) ==> e@ == day_error(value@),
    {
        let (ok, month, day) = valid_year_month_day(value);
        if ok && month && day {
            Ok(Date(string_from(chars_of(value).as_slice())))
        } else {
            let quoted = debug_quoted(value);
            Err(concat3("invalid date ", quoted.as_str(), ": expected YYYY-MM-DD"))
        }
    }
}

impl core::str::FromStr for Date {
    type Err = String;

    fn from_str(s: &str) -> (r: Result<Self, Self::Err>)
        ensures
            r is Ok <==> is_day_text(s@),
            r matches Ok(d) ==> d@ == s@,
            r matches Err(e) ==> e@ == day_error(s@),
    {
        Date::parse(s)
    }
}

/// Every calendar day is also a valid release date, at full precision.
pub proof fn lemma_day_is_release_date(s: Seq<char>)
    requires
        is_day_text(s),
    ensures
        is_release_date_text(s),
        s.len() == 10,
{
}

proof fn lemma_hex_lower_eq(x: char, y: char)
    requires
        lower(x) == lower(y),
        is_hex(x),
    ensures
        is_hex(y),
{
    lemma_lower(x);
    lemma_lower(y);
    assert(is_digit(x) ==> lower(x) == x);
    if is_upper(y) {
        assert((lower(y) as u32) == (y as u32) + 32);
        if is_upper(x) {
            assert((lower(x) as u32) == (x as u32) + 32);
            assert((x as u32) == (y as u32));
        } else {
            assert((x as u32) == (y as u32) + 32);
        }
    }
}

/// Parsing a SHA-1 is case-blind: two texts that lowercase alike parse alike.
pub proof fn lemma_sha1_case_blind(a: Seq<char>, b: Seq<char>)
    requires
        lower_seq(a) == lower_seq(b),
    ensures
        is_sha1_text(a) == is_sha1_text(b),
        sha1_error(a) == sha1_error(b),
{
    assert(a.len() == lower_seq(a).len());
    assert(b.len() == lower_seq(b).len());
    if is_sha1_text(a) {
        assert forall|i: int| 0 <= i < b.len() implies #[trigger] is_hex(b[i]) by {
            assert(lower_seq(a)[i] == lower_seq(b)[i]);
            assert(lower_seq(a)[i] == lower(a[i]));
            assert(lower_seq(b)[i] == lower(b[i]));
            assert(is_hex(a[i]));
            lemma_hex_lower_eq(a[i], b[i]);
        }
    }
    if is_sha1_text(b) {
        assert forall|i: int| 0 <= i < a.len() implies #[trigger] is_hex(a[i]) by {
            assert(lower_seq(a)[i] == lower_seq(b)[i]);
            assert(lower_seq(a)[i] == lower(a[i]));
            assert(lower_seq(b)[i] == lower(b[i]));
            assert(is_hex(b[i]));
            lemma_hex_lower_eq(b[i], a[i]);
        }
    }
}

/// A stored SHA-1 parses back to itself: normalization is idempotent.
pub proof fn lemma_sha1_normal_form_is_fixed(s: Seq<char>)
    requires
        is_sha1_form(s),
    ensures
        is_sha1_text(s),
        lower_seq(s) == s,
{
    assert forall|i: int| 0 <= i < s.len() implies #[trigger] is_hex(s[i]) by {
        assert(is_lower_hex(s[i]));
    }
    assert forall|i: int| 0 <= i < s.len() implies lower_seq(s)[i] == s[i] by {
        assert(is_lower_hex(s[i]));
    }
}

} // verus!
