//! Open curation work on the data: a flag lives until the work is done.
use vstd::prelude::*;

use crate::paths::{join, join_path};

verus! {

broadcast use vstd::string::group_string_axioms;

/// A piece of future work on the data. A flag lives until the work is done,
/// then it is deleted — git carries the history.
#[derive(Clone, PartialEq, Eq, Debug)]
pub struct Flag {
    pub id: u32,
    pub kind: FlagKind,
    /// The entries this concerns, as "tree/slug" refs.
    pub subject: Vec<String>,
    pub note: String,
}

#[derive(Clone, Copy, PartialEq, Eq, Structural, Debug)]
pub enum FlagKind {
    NearMissTitles,
    ReviewCandidateFamilies,
    Leftover,
    UnknownQualifier,
    ConflictingField,
    RetiredHash,
    /// The emulator diverges from the hardware for this game.
    EmulationIncompatibility,
    Custom,
}

#[derive(Clone, PartialEq, Eq, Debug)]
pub struct FlagFile {
    pub flags: Vec<Flag>,
}

/// The id after every id in use: one more than the largest, or 1.
pub open spec fn next_flag_id(flags: Seq<Flag>) -> int
    decreases flags.len(),
{
    if flags.len() == 0 {
        1
    } else {
        let rest = next_flag_id(flags.drop_last());
        let here = flags.last().id + 1;
        if here > rest {
            here
        } else {
            rest
        }
    }
}

pub open spec fn flags_path(repo_root: Seq<char>) -> Seq<char> {
    join(join(repo_root, "curation"@), "flags.ron"@)
}

pub proof fn lemma_next_flag_id(flags: Seq<Flag>)
    ensures
        next_flag_id(flags) >= 1,
        forall|i: int| 0 <= i < flags.len() ==> #[trigger] flags[i].id < next_flag_id(flags),
        flags.len() > 0 ==> exists|i: int|
            0 <= i < flags.len() && next_flag_id(flags) == #[trigger] flags[i].id + 1,
    decreases flags.len(),
{
    if flags.len() > 0 {
        lemma_next_flag_id(flags.drop_last());
        assert forall|i: int| 0 <= i < flags.len() implies #[trigger] flags[i].id < next_flag_id(
            flags,
        ) by {
            if i < flags.len() - 1 {
                assert(flags[i] == flags.drop_last()[i]);
            }
        }
        if flags.len() > 1 && next_flag_id(flags) == next_flag_id(flags.drop_last()) {
            let k = choose|k: int|
                0 <= k < flags.drop_last().len() && next_flag_id(flags.drop_last())
                    == #[trigger] flags.drop_last()[k].id + 1;
            assert(flags[k] == flags.drop_last()[k]);
        } else {
            assert(next_flag_id(flags) == flags[flags.len() - 1].id + 1);
        }
    }
}

impl FlagFile {
    /// `curation/flags.ron` under the repository root.
    pub fn path(repo_root: &str) -> (r: String)
        ensures
            r@ == flags_path(repo_root@),
    {
        let dir = join_path(repo_root, "curation");
        join_path(dir.as_str(), "flags.ron")
    }

    /// The id a new flag takes: one past the largest in use, 1 in an empty file.
    pub fn next_id(&self) -> (id: u32)
        requires
            forall|i: int| 0 <= i < self.flags@.len() ==> #[trigger] self.flags@[i].id < u32::MAX,
        ensures
            id == next_flag_id(self.flags@),
    {
        let mut best: u32 = 1;
        let mut i: usize = 0;
        while i < self.flags.len()
            invariant
                i <= self.flags@.len(),
                forall|j: int| 0 <= j < self.flags@.len() ==> #[trigger] self.flags@[j].id < u32::MAX,
                best == next_flag_id(self.flags@.take(i as int)),
            decreases self.flags@.len() - i,
        {
            assert(self.flags@.take(i + 1).drop_last() == self.flags@.take(i as int));
            let here = self.flags[i].id + 1;
            if here > best {
                best = here;
            }
            i = i + 1;
        }
        assert(self.flags@.take(self.flags@.len() as int) == self.flags@);
        best
    }

    /// The open flags, in file order.
    pub fn open(&self) -> (r: &[Flag])
        ensures
            r@ == self.flags@,
    {
        self.flags.as_slice()
    }
}

/// A new flag's id is fresh: it is at least 1 and no flag in the file has it.
pub proof fn lemma_next_id_is_fresh(file: FlagFile)
    ensures
        next_flag_id(file.flags@) >= 1,
        forall|i: int|
            0 <= i < file.flags@.len() ==> #[trigger] file.flags@[i].id != next_flag_id(
                file.flags@,
            ),
{
    lemma_next_flag_id(file.flags@);
}

} // verus!
