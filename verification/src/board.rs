//! Reading a cartridge board as a manifest writes it: `Name` alone, or
//! `Name(part: value, ...)`, where a part stated `None` is unstated and
//! `Some(x)` states `x`.
use vstd::prelude::*;

use crate::platform::{AttributeValue, BoardValue};
use crate::strings::{
    all_digits, chars_of, concat2, debug_quoted, debug_str, is_alnum, is_ascii_alnum, is_ascii_digit,
    owned, parse_u64, push_str, slice_of, split_words, str_eq, string_from, trim, trimmed,
    u64_text_value, views, words,
};

verus! {

broadcast use vstd::string::group_string_axioms;

/// The first position at or after `at` holding `c`.
pub open spec fn index_from(s: Seq<char>, c: char, at: int) -> Option<int>
    decreases s.len() - at,
{
    if at < 0 || at >= s.len() {
        None
    } else if s[at] == c {
        Some(at)
    } else {
        index_from(s, c, at + 1)
    }
}

proof fn lemma_index_from(s: Seq<char>, c: char, at: int)
    requires
        0 <= at,
    ensures
        index_from(s, c, at) matches Some(k) ==> at <= k < s.len() && s[k] == c,
    decreases s.len() - at,
{
    if at < s.len() && s[at] != c {
        lemma_index_from(s, c, at + 1);
    }
}

fn index_of(v: &Vec<char>, c: char) -> (r: Option<usize>)
    ensures
        match index_from(v@, c, 0) {
            Some(k) => r == Some(k as usize),
            None => r is None,
        },
{
    let mut i: usize = 0;
    while i < v.len()
        invariant
            i <= v@.len(),
            index_from(v@, c, 0) == index_from(v@, c, i as int),
        decreases v@.len() - i,
    {
        if v[i] == c {
            return Some(i);
        }
        i = i + 1;
    }
    None
}

/// A character a board's name may hold.
pub open spec fn is_name_char(c: char) -> bool {
    is_alnum(c) || c == '_'
}

/// A value written `Some(...)`.
pub open spec fn some_wrapped(v: Seq<char>) -> bool {
    v.len() >= 6 && v.take(5) == "Some("@ && v.last() == ')'
}

/// A value with its `Some(...)` taken off, where it has one.
pub open spec fn unwrapped(v: Seq<char>) -> Seq<char> {
    if some_wrapped(v) {
        trim(v.subrange(5, v.len() - 1))
    } else {
        v
    }
}

/// A value written as a count of bytes: decimal digits only.
pub open spec fn is_byte_count(v: Seq<char>) -> bool {
    v.len() > 0 && all_digits(v)
}

/// One `part: value` of a board: its trimmed key and its value, `None` for
/// a part stated `None`, or why it cannot be read.
pub open spec fn part_entry(part: Seq<char>) -> Result<Option<(Seq<char>, Seq<char>)>, Seq<char>> {
    match index_from(part, ':', 0) {
        None => Err("board part without a value: "@ + debug_str(part)),
        Some(at) => {
            let key = part.take(at);
            let v0 = trim(part.skip(at + 1));
            if v0 == "None"@ {
                Ok(None)
            } else {
                let v = unwrapped(v0);
                if is_byte_count(v) && u64_text_value(v) is None {
                    Err("board part "@ + debug_str(key) + ": number too large to fit in target type"@)
                } else {
                    Ok(Some((trim(key), v)))
                }
            }
        },
    }
}

/// The stated parts, in order, or the first part that cannot be read.
pub open spec fn board_parts(parts: Seq<Seq<char>>) -> Result<Seq<(Seq<char>, Seq<char>)>, Seq<char>>
    decreases parts.len(),
{
    if parts.len() == 0 {
        Ok(Seq::empty())
    } else {
        match board_parts(parts.drop_last()) {
            Err(e) => Err(e),
            Ok(es) => match part_entry(parts.last()) {
                Err(e) => Err(e),
                Ok(None) => Ok(es),
                Ok(Some(x)) => Ok(es.push(x)),
            },
        }
    }
}

/// A trimmed board text split at its first `(`: the trimmed name and the
/// text inside the brackets, or why the brackets do not close.
pub open spec fn board_split(t: Seq<char>) -> Result<(Seq<char>, Seq<char>), Seq<char>> {
    match index_from(t, '(', 0) {
        Some(at) => {
            let rest = t.skip(at + 1);
            if rest.len() > 0 && rest.last() == ')' {
                Ok((trim(t.take(at)), rest.drop_last()))
            } else {
                Err("unclosed board "@ + debug_str(t))
            }
        },
        None => Ok((t, Seq::<char>::empty())),
    }
}

pub open spec fn is_board_name(name: Seq<char>) -> bool {
    name.len() > 0 && forall|i: int| 0 <= i < name.len() ==> #[trigger] is_name_char(name[i])
}

/// A board's text read: its name and its stated parts, or why it is no board.
pub open spec fn board_text(text: Seq<char>) -> Result<(Seq<char>, Seq<(Seq<char>, Seq<char>)>), Seq<char>> {
    let t = trim(text);
    match board_split(t) {
        Err(e) => Err(e),
        Ok((name, body)) => if !is_board_name(name) {
            Err("not a board: "@ + debug_str(t))
        } else {
            match board_parts(words(body, ',')) {
                Err(e) => Err(e),
                Ok(ps) => Ok((name, ps)),
            }
        },
    }
}

/// What a part's value text states: a toggle, a count of bytes, or a named
/// size or kind.
pub open spec fn is_part_value(a: AttributeValue, v: Seq<char>) -> bool {
    if v == "true"@ {
        a == AttributeValue::Toggle(true)
    } else if v == "false"@ {
        a == AttributeValue::Toggle(false)
    } else if is_byte_count(v) {
        a matches AttributeValue::Bytes(n) && u64_text_value(v) == Some(n as int)
    } else {
        a matches AttributeValue::Choice(c) && c@ == v
    }
}

/// A board value holds exactly these stated parts, in order.
pub open spec fn board_holds(b: BoardValue, ps: Seq<(Seq<char>, Seq<char>)>) -> bool {
    &&& b.attributes@.len() == ps.len()
    &&& forall|k: int|
        0 <= k < ps.len() ==> #[trigger] b.attributes@[k].0@ == ps[k].0 && is_part_value(b.attributes@[k].1, ps[k].1)
}

fn text_is(v: &Vec<char>, s: &str) -> (b: bool)
    ensures
        b == (v@ == s@),
{
    let t = string_from(v.as_slice());
    str_eq(t.as_str(), s)
}

fn digits_only(v: &Vec<char>) -> (b: bool)
    ensures
        b == is_byte_count(v@),
{
    if v.len() == 0 {
        return false;
    }
    let mut i: usize = 0;
    while i < v.len()
        invariant
            i <= v@.len(),
            forall|j: int| 0 <= j < i ==> #[trigger] crate::strings::is_digit(v@[j]),
        decreases v@.len() - i,
    {
        if !is_ascii_digit(v[i]) {
            return false;
        }
        i = i + 1;
    }
    true
}

fn unwrap_some(v: Vec<char>) -> (r: Vec<char>)
    ensures
        r@ == unwrapped(v@),
{
    if v.len() >= 6 && v[v.len() - 1] == ')' {
        let head = slice_of(&v, 0, 5);
        if text_is(&head, "Some(") {
            let inner = slice_of(&v, 5, v.len() - 1);
            return trimmed(&inner);
        }
    }
    v
}

/// Reads one `part: value`.
fn read_part(part: &str) -> (r: Result<Option<(String, Vec<char>)>, String>)
    ensures
        match part_entry(part@) {
            Err(e) => r matches Err(m) && m@ == e,
            Ok(None) => r matches Ok(None),
            Ok(Some((k, v))) => r matches Ok(Some((key, value))) && key@ == k && value@ == v,
        },
{
    let pv = chars_of(part);
    match index_of(&pv, ':') {
        None => {
            let q = debug_quoted(part);
            Err(concat2("board part without a value: ", q.as_str()))
        },
        Some(at) => {
            proof {
                lemma_index_from(pv@, ':', 0);
            }
            let key = slice_of(&pv, 0, at);
            assert(key@ == pv@.take(at as int));
            let rest = slice_of(&pv, at + 1, pv.len());
            assert(rest@ == pv@.skip(at + 1));
            let v0 = trimmed(&rest);
            if text_is(&v0, "None") {
                return Ok(None);
            }
            let v = unwrap_some(v0);
            if digits_only(&v) {
                let vs = string_from(v.as_slice());
                if parse_u64(vs.as_str()).is_none() {
                    let ks = string_from(key.as_slice());
                    let q = debug_quoted(ks.as_str());
                    let mut m = concat2("board part ", q.as_str());
                    push_str(&mut m, ": number too large to fit in target type");
                    return Err(m);
                }
            }
            let k = trimmed(&key);
            Ok(Some((string_from(k.as_slice()), v)))
        },
    }
}

/// The value a part's text states.
fn part_value(v: &Vec<char>) -> (a: AttributeValue)
    requires
        !(is_byte_count(v@) && u64_text_value(v@) is None),
    ensures
        is_part_value(a, v@),
{
    if text_is(v, "true") {
        AttributeValue::Toggle(true)
    } else if text_is(v, "false") {
        AttributeValue::Toggle(false)
    } else if digits_only(v) {
        let s = string_from(v.as_slice());
        match parse_u64(s.as_str()) {
            Some(n) => AttributeValue::Bytes(n),
            None => AttributeValue::Choice(s),
        }
    } else {
        AttributeValue::Choice(string_from(v.as_slice()))
    }
}

/// Reads a board as a manifest writes it: its name, then each `part: value`
/// inside the brackets. A part stated `None` is unstated; `Some(x)` states
/// `x`; `true` and `false` are toggles, digits a count of bytes, and any
/// other value names a size or kind.
pub fn read_board(text: &str) -> (r: Result<BoardValue, String>)
    ensures
        (r is Ok) == (board_text(text@) is Ok),
        r matches Err(m) ==> board_text(text@) == Err::<(Seq<char>, Seq<(Seq<char>, Seq<char>)>), Seq<char>>(m@),
        r is Ok ==> exists|b: BoardValue, ps: Seq<(Seq<char>, Seq<char>)>|
            r == Ok::<BoardValue, String>(b) && board_text(text@) == Ok::<
                (Seq<char>, Seq<(Seq<char>, Seq<char>)>),
                Seq<char>,
            >((b.name@, ps)) && #[trigger] board_holds(b, ps),
{
    let all = chars_of(text);
    let t = trimmed(&all);
    let ts = string_from(t.as_slice());
    let (name, body) = match index_of(&t, '(') {
        Some(at) => {
            proof {
                lemma_index_from(t@, '(', 0);
            }
            if at + 1 < t.len() && t[t.len() - 1] == ')' {
                let head = slice_of(&t, 0, at);
                assert(head@ == t@.take(at as int));
                let body = slice_of(&t, at + 1, t.len() - 1);
                assert(body@ == t@.skip(at + 1).drop_last());
                assert(t@.skip(at + 1).last() == t@[t@.len() - 1]);
                (trimmed(&head), body)
            } else {
                let q = debug_quoted(ts.as_str());
                return Err(concat2("unclosed board ", q.as_str()));
            }
        },
        None => (t, Vec::new()),
    };
    assert(t@ == trim(text@));
    assert(ts@ == t@);
    assert(board_split(t@) == Ok::<(Seq<char>, Seq<char>), Seq<char>>((name@, body@)));
    let mut ok = name.len() > 0;
    let mut i: usize = 0;
    while i < name.len()
        invariant
            i <= name@.len(),
            ok == (name@.len() > 0 && forall|j: int| 0 <= j < i ==> #[trigger] is_name_char(name@[j])),
        decreases name@.len() - i,
    {
        let good = is_ascii_alnum(name[i]) || name[i] == '_';
        assert(good == is_name_char(name@[i as int]));
        if !good {
            ok = false;
        }
        proof {
            if ok {
                assert forall|j: int| 0 <= j < i + 1 implies #[trigger] is_name_char(name@[j]) by {
                    if j < i {
                    }
                }
            }
        }
        i = i + 1;
    }
    assert(ok == is_board_name(name@));
    if !ok {
        let q = debug_quoted(ts.as_str());
        return Err(concat2("not a board: ", q.as_str()));
    }
    let body_text = string_from(body.as_slice());
    let parts = split_words(body_text.as_str(), ',');
    let ghost pv = views(parts@);
    assert(pv == words(body@, ','));
    let ghost expect = match board_parts(pv) {
        Err(e) => Err(e),
        Ok(ps) => Ok((name@, ps)),
    };
    assert(board_text(text@) == expect);
    let mut attributes: Vec<(String, AttributeValue)> = Vec::new();
    let ghost mut stated: Seq<(Seq<char>, Seq<char>)> = Seq::empty();
    let mut k: usize = 0;
    assert(pv.take(0) =~= Seq::<Seq<char>>::empty());
    while k < parts.len()
        invariant
            k <= parts@.len(),
            pv == views(parts@),
            board_text(text@) == expect,
            expect == match board_parts(pv) {
                Err(e) => Err(e),
                Ok(ps) => Ok((name@, ps)),
            },
            board_parts(pv.take(k as int)) == Ok::<Seq<(Seq<char>, Seq<char>)>, Seq<char>>(stated),
            attributes@.len() == stated.len(),
            forall|j: int|
                0 <= j < stated.len() ==> #[trigger] attributes@[j].0@ == stated[j].0 && is_part_value(
                    attributes@[j].1,
                    stated[j].1,
                ),
        decreases parts@.len() - k,
    {
        assert(pv.take(k + 1).drop_last() == pv.take(k as int));
        assert(pv.take(k + 1).last() == parts@[k as int]@);
        match read_part(parts[k].as_str()) {
            Err(e) => {
                proof {
                    lemma_parts_fail(pv, k as int + 1);
                }
                return Err(e);
            },
            Ok(None) => {},
            Ok(Some((key, v))) => {
                let a = part_value(&v);
                attributes.push((key, a));
                proof {
                    stated = stated.push((key@, v@));
                }
            },
        }
        k = k + 1;
    }
    assert(pv.take(pv.len() as int) == pv);
    assert(board_parts(pv) == Ok::<Seq<(Seq<char>, Seq<char>)>, Seq<char>>(stated));
    let b = BoardValue { name: string_from(name.as_slice()), attributes };
    assert(b.name@ == name@);
    assert(board_holds(b, stated));
    assert(board_text(text@) == Ok::<(Seq<char>, Seq<(Seq<char>, Seq<char>)>), Seq<char>>((b.name@, stated)));
    Ok(b)
}

/// Once a prefix of the parts fails, the whole list fails the same way.
proof fn lemma_parts_fail(ps: Seq<Seq<char>>, n: int)
    requires
        0 <= n <= ps.len(),
        board_parts(ps.take(n)) is Err,
    ensures
        board_parts(ps) == board_parts(ps.take(n)),
    decreases ps.len() - n,
{
    if n < ps.len() {
        assert(ps.take(n + 1).drop_last() == ps.take(n));
        lemma_parts_fail(ps, n + 1);
    } else {
        assert(ps.take(n) == ps);
    }
}

} // verus!
