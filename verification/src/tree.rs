//! What a tree of games holds as a whole: its dumps, as a sorted multiset,
//! so a rewrite can show it kept every one.
use vstd::prelude::*;

use crate::fix_slugs::{lemma_lex_irrefl, lemma_lex_total, lemma_lex_trans, lex_less, lex_lt};
use crate::game::Game;
use crate::platform::Platform;
use crate::strings::{chars_of, views};
use crate::verify_hashes::{game_hashes, release_hashes};

verus! {

broadcast use vstd::string::group_string_axioms;

/// Every dump the games' releases claim, game by game, in order.
pub open spec fn games_hashes<P: Platform>(games: Seq<(String, Game<P>)>) -> Seq<Seq<char>>
    decreases games.len(),
{
    if games.len() == 0 {
        Seq::empty()
    } else {
        games_hashes(games.drop_last()) + release_hashes(games.last().1.releases@)
    }
}

/// Sorted in the order `String` sorts in, repeats kept side by side.
pub open spec fn sorted_text(s: Seq<Seq<char>>) -> bool {
    forall|i: int, j: int| 0 <= i < j < s.len() ==> !lex_lt(#[trigger] s[j], #[trigger] s[i])
}

proof fn lemma_lex_asym(a: Seq<char>, b: Seq<char>)
    requires
        lex_lt(a, b),
    ensures
        !lex_lt(b, a),
{
    if lex_lt(b, a) {
        lemma_lex_trans(a, b, a);
        lemma_lex_irrefl(a);
    }
}

/// Places a dump in a sorted list, after every one that does not sort after
/// it.
fn insert_sorted_text(v: &mut Vec<String>, x: String)
    requires
        sorted_text(views(old(v)@)),
    ensures
        sorted_text(views(final(v)@)),
        views(final(v)@).to_multiset() == views(old(v)@).to_multiset().insert(x@),
{
    let xs = chars_of(x.as_str());
    let ghost s = views(v@);
    let mut i: usize = 0;
    while i < v.len()
        invariant
            i <= v@.len(),
            s == views(v@),
            xs@ == x@,
            forall|k: int| 0 <= k < i ==> !lex_lt(xs@, #[trigger] s[k]),
        ensures
            i <= v@.len(),
            s == views(v@),
            forall|k: int| 0 <= k < i ==> !lex_lt(xs@, #[trigger] s[k]),
            i < v@.len() ==> lex_lt(xs@, s[i as int]),
        decreases v@.len() - i,
    {
        let cur = chars_of(v[i].as_str());
        assert(cur@ == s[i as int]);
        if lex_less(&xs, &cur) {
            break;
        }
        i = i + 1;
    }
    v.insert(i, x);
    proof {
        let n = views(v@);
        assert(n =~= s.take(i as int) + seq![x@] + s.skip(i as int));
        assert(s =~= s.take(i as int) + s.skip(i as int));
        vstd::seq_lib::lemma_multiset_commutative(s.take(i as int) + seq![x@], s.skip(i as int));
        vstd::seq_lib::lemma_multiset_commutative(s.take(i as int), seq![x@]);
        vstd::seq_lib::lemma_multiset_commutative(s.take(i as int), s.skip(i as int));
        assert(seq![x@].to_multiset() =~= vstd::multiset::Multiset::empty().insert(x@)) by {
            broadcast use vstd::seq_lib::group_to_multiset_ensures;
            assert(seq![x@] == Seq::<Seq<char>>::empty().push(x@));
        }
        assert(n.to_multiset() =~= s.to_multiset().insert(x@));
        assert forall|a: int, b: int| 0 <= a < b < n.len() implies !lex_lt(#[trigger] n[b], #[trigger] n[a]) by {
            if b < i {
                assert(n[a] == s[a] && n[b] == s[b]);
            } else if b == i {
                assert(n[a] == s[a]);
            } else if a == i {
                assert(n[b] == s[b - 1]);
                if b - 1 > i {
                    lemma_lex_total(s[i as int], s[b - 1]);
                    if lex_lt(s[i as int], s[b - 1]) {
                        lemma_lex_trans(x@, s[i as int], s[b - 1]);
                    }
                }
                lemma_lex_asym(x@, s[b - 1]);
            } else if a < i {
                assert(n[a] == s[a] && n[b] == s[b - 1]);
            } else {
                assert(n[a] == s[a - 1] && n[b] == s[b - 1]);
            }
        }
    }
}

/// The dumps the games claim, sorted, repeats kept: two trees hold the same
/// dumps exactly when their lists are equal.
pub fn sha1_multiset<P: Platform>(games: &Vec<(String, Game<P>)>) -> (r: Vec<String>)
    ensures
        sorted_text(views(r@)),
        views(r@).to_multiset() == games_hashes(games@).to_multiset(),
{
    let mut r: Vec<String> = Vec::new();
    let mut i: usize = 0;
    assert(games@.take(0) =~= Seq::<(String, Game<P>)>::empty());
    assert(views(r@) =~= Seq::<Seq<char>>::empty());
    while i < games.len()
        invariant
            i <= games@.len(),
            sorted_text(views(r@)),
            views(r@).to_multiset() == games_hashes(games@.take(i as int)).to_multiset(),
        decreases games@.len() - i,
    {
        assert(games@.take(i + 1).drop_last() == games@.take(i as int));
        assert(games@.take(i + 1).last() == games@[i as int]);
        let hs = game_hashes(&games[i].1);
        let ghost base = games_hashes(games@.take(i as int));
        let mut k: usize = 0;
        assert(views(hs@).take(0) =~= Seq::<Seq<char>>::empty());
        assert(base + Seq::<Seq<char>>::empty() == base);
        while k < hs.len()
            invariant
                k <= hs@.len(),
                sorted_text(views(r@)),
                views(r@).to_multiset() == (base + views(hs@).take(k as int)).to_multiset(),
            decreases hs@.len() - k,
        {
            insert_sorted_text(&mut r, hs[k].clone());
            proof {
                assert(base + views(hs@).take(k + 1) =~= (base + views(hs@).take(k as int)).push(hs@[k as int]@));
                broadcast use vstd::seq_lib::group_to_multiset_ensures;
            }
            k = k + 1;
        }
        assert(views(hs@).take(hs@.len() as int) == views(hs@));
        i = i + 1;
    }
    assert(games@.take(games@.len() as int) == games@);
    r
}

} // verus!
