//! Dumps the database deliberately does not catalogue.
use vstd::prelude::*;

use crate::ids::Sha1;
use crate::paths::{join, join_path};
use crate::strings::str_eq;

verus! {

broadcast use vstd::string::group_string_axioms;

/// A dump the database deliberately does not catalogue. Where a flag is work
/// that ends when someone does it, this is a standing decision, so the scan
/// consults it and never offers the dump as a new record again.
#[derive(Clone, PartialEq, Eq, Debug)]
pub struct Rejection {
    /// What the entry was called when it was turned away.
    pub title: String,
    pub reason: String,
    pub dumps: Vec<Sha1>,
}

#[derive(Clone, PartialEq, Eq, Debug)]
pub struct RejectedFile {
    pub rejected: Vec<Rejection>,
}

pub open spec fn rejected_path(repo_root: Seq<char>) -> Seq<char> {
    join(join(repo_root, "curation"@), "rejected.ron"@)
}

/// Whether a rejection lists the dump.
pub open spec fn lists(r: Rejection, sha1: Seq<char>) -> bool {
    exists|j: int| 0 <= j < r.dumps@.len() && #[trigger] r.dumps@[j]@ == sha1
}

/// Whether any rejection lists the dump.
pub open spec fn held(rs: Seq<Rejection>, sha1: Seq<char>) -> bool {
    exists|i: int| 0 <= i < rs.len() && lists(#[trigger] rs[i], sha1)
}

/// The first rejection that lists the dump.
pub open spec fn first_listing(rs: Seq<Rejection>, sha1: Seq<char>) -> Option<int> {
    if held(rs, sha1) {
        Some(
            choose|i: int|
                0 <= i < rs.len() && lists(#[trigger] rs[i], sha1) && forall|k: int|
                    0 <= k < i ==> !lists(#[trigger] rs[k], sha1),
        )
    } else {
        None
    }
}

fn rejection_lists(r: &Rejection, sha1: &str) -> (b: bool)
    ensures
        b == lists(*r, sha1@),
{
    let mut j: usize = 0;
    while j < r.dumps.len()
        invariant
            j <= r.dumps@.len(),
            forall|k: int| 0 <= k < j ==> #[trigger] r.dumps@[k]@ != sha1@,
        decreases r.dumps@.len() - j,
    {
        if str_eq(r.dumps[j].as_str(), sha1) {
            return true;
        }
        j = j + 1;
    }
    false
}

impl RejectedFile {
    /// `curation/rejected.ron` under the repository root.
    pub fn path(repo_root: &str) -> (r: String)
        ensures
            r@ == rejected_path(repo_root@),
    {
        let dir = join_path(repo_root, "curation");
        join_path(dir.as_str(), "rejected.ron")
    }

    /// Whether some rejection lists the dump.
    pub fn holds(&self, sha1: &str) -> (b: bool)
        ensures
            b == held(self.rejected@, sha1@),
    {
        let mut i: usize = 0;
        while i < self.rejected.len()
            invariant
                i <= self.rejected@.len(),
                forall|k: int| 0 <= k < i ==> !lists(#[trigger] self.rejected@[k], sha1@),
            decreases self.rejected@.len() - i,
        {
            if rejection_lists(&self.rejected[i], sha1) {
                return true;
            }
            i = i + 1;
        }
        false
    }

    /// The rejection a dump belongs to, for saying why a scan passed it over.
    pub fn reason_for(&self, sha1: &str) -> (r: Option<&Rejection>)
        ensures
            match first_listing(self.rejected@, sha1@) {
                Some(k) => r == Some(&self.rejected@[k]),
                None => r is None,
            },
    {
        let mut i: usize = 0;
        while i < self.rejected.len()
            invariant
                i <= self.rejected@.len(),
                forall|k: int| 0 <= k < i ==> !lists(#[trigger] self.rejected@[k], sha1@),
            decreases self.rejected@.len() - i,
        {
            if rejection_lists(&self.rejected[i], sha1) {
                proof {
                    let k = first_listing(self.rejected@, sha1@)->Some_0;
                    assert(lists(self.rejected@[i as int], sha1@));
                    if k < i {
                        assert(!lists(self.rejected@[k], sha1@));
                    }
                    if k > i {
                        assert(!lists(self.rejected@[i as int], sha1@));
                    }
                }
                return Some(&self.rejected[i]);
            }
            i = i + 1;
        }
        None
    }
}

/// A dump has a reason exactly when it is held, and the reason is a rejection
/// that lists it.
pub proof fn lemma_reason_iff_held(file: RejectedFile, sha1: Seq<char>)
    ensures
        first_listing(file.rejected@, sha1) is Some <==> held(file.rejected@, sha1),
        first_listing(file.rejected@, sha1) matches Some(k) ==> 0 <= k < file.rejected@.len()
            && lists(file.rejected@[k], sha1),
{
    if held(file.rejected@, sha1) {
        lemma_first_listing_exists(file.rejected@, sha1);
    }
}

proof fn lemma_first_listing_exists(rs: Seq<Rejection>, sha1: Seq<char>)
    requires
        held(rs, sha1),
    ensures
        exists|i: int|
            0 <= i < rs.len() && lists(#[trigger] rs[i], sha1) && forall|k: int|
                0 <= k < i ==> !lists(#[trigger] rs[k], sha1),
    decreases rs.len(),
{
    if lists(rs.last(), sha1) && !held(rs.drop_last(), sha1) {
        let i = rs.len() - 1;
        assert forall|k: int| 0 <= k < i implies !lists(#[trigger] rs[k], sha1) by {
            assert(rs[k] == rs.drop_last()[k]);
        }
        assert(lists(rs[i], sha1));
    } else {
        if !held(rs.drop_last(), sha1) {
            let w = choose|i: int| 0 <= i < rs.len() && lists(#[trigger] rs[i], sha1);
            if w < rs.len() - 1 {
                assert(rs[w] == rs.drop_last()[w]);
            }
        }
        lemma_first_listing_exists(rs.drop_last(), sha1);
        let i = choose|i: int|
            0 <= i < rs.drop_last().len() && lists(#[trigger] rs.drop_last()[i], sha1) && forall|
                k: int,
            | 0 <= k < i ==> !lists(#[trigger] rs.drop_last()[k], sha1);
        assert(rs[i] == rs.drop_last()[i]);
        assert forall|k: int| 0 <= k < i implies !lists(#[trigger] rs[k], sha1) by {
            assert(rs[k] == rs.drop_last()[k]);
        }
    }
}

} // verus!
