//! Stable insertion sort of indices by an order on what they index: the
//! order `slice::sort_by` gives a list it sorts by a strict weak order.
use vstd::prelude::*;

verus! {

/// Stable insertion: `x` goes after every index it does not sort before.
pub open spec fn insert_by(s: Seq<int>, x: int, before: spec_fn(int, int) -> bool) -> Seq<int>
    decreases s.len(),
{
    if s.len() == 0 || !before(x, s.last()) {
        s.push(x)
    } else {
        insert_by(s.drop_last(), x, before).push(s.last())
    }
}

/// The indices, stably sorted.
pub open spec fn sort_by(idx: Seq<int>, before: spec_fn(int, int) -> bool) -> Seq<int>
    decreases idx.len(),
{
    if idx.len() == 0 {
        Seq::empty()
    } else {
        insert_by(sort_by(idx.drop_last(), before), idx.last(), before)
    }
}

/// Where stable insertion puts `x`: after the last index it does not sort
/// before.
pub proof fn lemma_insert_at(s: Seq<int>, x: int, p: int, before: spec_fn(int, int) -> bool)
    requires
        0 <= p <= s.len(),
        forall|j: int| p <= j < s.len() ==> before(x, #[trigger] s[j]),
        p == 0 || !before(x, s[p - 1]),
    ensures
        insert_by(s, x, before) == s.take(p).push(x) + s.skip(p),
    decreases s.len() - p,
{
    if s.len() == p {
        assert(s.take(p) == s);
        assert(s.skip(p) =~= Seq::<int>::empty());
        assert(s.take(p).push(x) + s.skip(p) =~= s.push(x));
    } else {
        let last = s.last();
        assert(before(x, s[s.len() - 1]));
        lemma_insert_at(s.drop_last(), x, p, before);
        assert(s.drop_last().take(p) =~= s.take(p));
        assert(s.drop_last().skip(p).push(last) =~= s.skip(p));
        assert((s.take(p).push(x) + s.drop_last().skip(p)).push(last) =~= s.take(p).push(x) + s.skip(p));
    }
}

pub proof fn lemma_insert_len(s: Seq<int>, x: int, before: spec_fn(int, int) -> bool)
    ensures
        insert_by(s, x, before).len() == s.len() + 1,
    decreases s.len(),
{
    if s.len() > 0 {
        lemma_insert_len(s.drop_last(), x, before);
    }
}

/// Sorting keeps the number of indices.
pub proof fn lemma_sort_len(idx: Seq<int>, before: spec_fn(int, int) -> bool)
    ensures
        sort_by(idx, before).len() == idx.len(),
    decreases idx.len(),
{
    if idx.len() > 0 {
        lemma_sort_len(idx.drop_last(), before);
        lemma_insert_len(sort_by(idx.drop_last(), before), idx.last(), before);
    }
}

pub proof fn lemma_insert_members(s: Seq<int>, x: int, before: spec_fn(int, int) -> bool)
    ensures
        forall|j: int|
            0 <= j < insert_by(s, x, before).len() ==> (s.contains(#[trigger] insert_by(s, x, before)[j])
                || insert_by(s, x, before)[j] == x),
    decreases s.len(),
{
    let r = insert_by(s, x, before);
    if s.len() > 0 && before(x, s.last()) {
        lemma_insert_members(s.drop_last(), x, before);
        let r0 = insert_by(s.drop_last(), x, before);
        assert forall|j: int| 0 <= j < r.len() implies (s.contains(#[trigger] r[j]) || r[j] == x) by {
            if j < r0.len() {
                assert(r[j] == r0[j]);
                if r0[j] != x {
                    let k = choose|k: int| 0 <= k < s.drop_last().len() && s.drop_last()[k] == r0[j];
                    assert(s[k] == r0[j]);
                }
            } else {
                assert(r[j] == s.last());
                assert(s[s.len() - 1] == s.last());
            }
        }
    } else {
        assert forall|j: int| 0 <= j < r.len() implies (s.contains(#[trigger] r[j]) || r[j] == x) by {
            if j < s.len() {
                assert(r[j] == s[j]);
            }
        }
    }
}

/// Sorting keeps the indices it was given.
pub proof fn lemma_sort_members(idx: Seq<int>, before: spec_fn(int, int) -> bool)
    ensures
        forall|j: int| 0 <= j < sort_by(idx, before).len() ==> idx.contains(#[trigger] sort_by(idx, before)[j]),
    decreases idx.len(),
{
    if idx.len() > 0 {
        let pre = idx.drop_last();
        lemma_sort_members(pre, before);
        lemma_insert_members(sort_by(pre, before), idx.last(), before);
        assert forall|j: int| 0 <= j < sort_by(idx, before).len() implies idx.contains(
            #[trigger] sort_by(idx, before)[j],
        ) by {
            let y = sort_by(idx, before)[j];
            if y != idx.last() {
                assert(sort_by(pre, before).contains(y));
                assert(pre.contains(y));
                let p = choose|p: int| 0 <= p < pre.len() && pre[p] == y;
                assert(idx[p] == y);
            } else {
                assert(idx[idx.len() - 1] == y);
            }
        }
    }
}

} // verus!
