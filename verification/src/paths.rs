//! Joining a relative component onto a directory path, as `Path::join` does
//! on Unix: a separator goes between them unless the base is empty or
//! already ends in one.
use vstd::prelude::*;

use crate::strings::{chars_of, push_str};

verus! {

broadcast use vstd::string::group_string_axioms;

pub open spec fn join(base: Seq<char>, rel: Seq<char>) -> Seq<char> {
    if base.len() == 0 || base.last() == '/' {
        base + rel
    } else {
        base + "/"@ + rel
    }
}

/// `base` joined with the relative component `rel`.
pub fn join_path(base: &str, rel: &str) -> (r: String)
    ensures
        r@ == join(base@, rel@),
{
    let chars = chars_of(base);
    let mut r = String::new();
    push_str(&mut r, base);
    if chars.len() > 0 && chars[chars.len() - 1] != '/' {
        push_str(&mut r, "/");
    }
    push_str(&mut r, rel);
    r
}

} // verus!
