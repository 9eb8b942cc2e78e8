//! A JSON document's top level as plain values.
use vstd::prelude::*;

verus! {

/// The top level of a JSON document: the string it is, where it is a
/// string; its members, each value written back as JSON text, where it is
/// an object.
pub struct JsonTop {
    pub string: Option<String>,
    pub members: Option<Vec<(String, String)>>,
}

/// The top level as plain values: the string, and the members.
pub type JsonTopView = (Option<Seq<char>>, Option<Seq<(Seq<char>, Seq<char>)>>);

pub open spec fn member_views(v: Seq<(String, String)>) -> Seq<(Seq<char>, Seq<char>)> {
    v.map_values(|m: (String, String)| (m.0@, m.1@))
}

pub open spec fn top_result_view(r: Result<JsonTop, String>) -> Result<JsonTopView, Seq<char>> {
    match r {
        Ok(t) => Ok(
            (
                match t.string {
                    Some(s) => Some(s@),
                    None => None,
                },
                match t.members {
                    Some(ms) => Some(member_views(ms@)),
                    None => None,
                },
            ),
        ),
        Err(e) => Err(e@),
    }
}

/// What `serde_json` reads from a text, at its top level, or its error
/// message.
pub uninterp spec fn json_top(text: Seq<char>) -> Result<JsonTopView, Seq<char>>;

/// `serde_json::from_str::<serde_json::Value>`, converted to its top level:
/// `Value::as_str` owned, and each member of `Value::as_object` in the map's
/// order with its value written back by `Value`'s `Display`; or the error's
/// `Display` text. The result is named by the text alone; nothing more of it
/// is claimed.
#[verifier::external_body]
pub(crate) fn parse_json(text: &str) -> (r: Result<JsonTop, String>)
    ensures
        top_result_view(r) == json_top(text@),
{
    let v: serde_json::Value = serde_json::from_str(text).map_err(|e| e.to_string())?;
    Ok(JsonTop {
        string: v.as_str().map(str::to_owned),
        members: v.as_object().map(|m| m.iter().map(|(k, c)| (k.clone(), c.to_string())).collect()),
    })
}

/// The JSON text of the first member with this name.
pub open spec fn member_of(ms: Seq<(Seq<char>, Seq<char>)>, key: Seq<char>) -> Option<Seq<char>>
    decreases ms.len(),
{
    if ms.len() == 0 {
        None
    } else if ms[0].0 == key {
        Some(ms[0].1)
    } else {
        member_of(ms.drop_first(), key)
    }
}

/// The JSON text of a document's member, where the document is an object
/// that has it (`Value::get`).
pub open spec fn json_get(doc: Result<JsonTopView, Seq<char>>, key: Seq<char>) -> Option<Seq<char>> {
    match doc {
        Ok((_, Some(ms))) => member_of(ms, key),
        _ => None,
    }
}

/// The string a JSON text holds, where it holds one (`Value::as_str`).
pub open spec fn json_string(text: Seq<char>) -> Option<Seq<char>> {
    match json_top(text) {
        Ok((Some(s), _)) => Some(s),
        _ => None,
    }
}

/// The member's JSON text with this name.
pub fn member<'a>(ms: &'a Vec<(String, String)>, key: &str) -> (r: Option<&'a String>)
    ensures
        match member_of(member_views(ms@), key@) {
            Some(t) => r matches Some(s) && s@ == t,
            None => r is None,
        },
{
    let ghost all = member_views(ms@);
    let mut k: usize = 0;
    assert(all.skip(0) == all);
    while k < ms.len()
        invariant
            k <= ms@.len(),
            all == member_views(ms@),
            member_of(all, key@) == member_of(all.skip(k as int), key@),
        decreases ms@.len() - k,
    {
        assert(all.skip(k as int)[0] == (ms@[k as int].0@, ms@[k as int].1@));
        assert(all.skip(k as int).drop_first() == all.skip(k + 1));
        if crate::strings::str_eq(ms[k].0.as_str(), key) {
            return Some(&ms[k].1);
        }
        k = k + 1;
    }
    assert(all.skip(k as int).len() == 0);
    None
}

/// The JSON text of a document's member (`Value::get`).
pub fn get_member(text: &str, key: &str) -> (r: Option<String>)
    ensures
        match json_get(json_top(text@), key@) {
            Some(t) => r matches Some(s) && s@ == t,
            None => r is None,
        },
{
    match parse_json(text) {
        Ok(top) => match &top.members {
            Some(ms) => match member(ms, key) {
                Some(s) => Some(s.clone()),
                None => None,
            },
            None => None,
        },
        Err(_) => None,
    }
}

/// The string a JSON text holds (`Value::as_str`).
pub fn string_of(text: &str) -> (r: Option<String>)
    ensures
        match json_string(text@) {
            Some(t) => r matches Some(s) && s@ == t,
            None => r is None,
        },
{
    match parse_json(text) {
        Ok(top) => top.string,
        Err(_) => None,
    }
}

} // verus!
