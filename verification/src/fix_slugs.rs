//! Slug cleanup: hardware qualifiers that survived inside slugs are dropped,
//! since every one of them duplicates a structured release field.
//!
//! A suffix is only stripped when the entry's own hardware fields corroborate
//! it — "pal" goes when some release is PAL, "f6sc" when some release is on an
//! F6SC board. An uncorroborated suffix is a word in the game's name.
use vstd::prelude::*;

use crate::flags::{Flag, FlagFile};
use crate::game::{Game, Release};
use crate::load::{Entry, Tree};
use crate::platform::{BoardValue, GameBoy, GameBoyColor, Platform, TvStandard, Vcs};
use crate::report::{Report, added, added_all, distinct_headings, lemma_add_counts_one, lemma_added_all, total_items};
use crate::strings::{
    count_equal, count_text, chars_of, debug_quoted, debug_str, ends_with, starts_with, lowercase, owned, push_str, slice_of, str_eq,
    string_from, to_lowercase, views,
};

verus! {

broadcast use vstd::string::group_string_axioms;

/// What a slug cleanup did.
#[derive(Clone, Copy, PartialEq, Eq, Structural, Debug)]
pub struct Stats {
    pub renamed: usize,
    pub collisions: usize,
    pub subjects: usize,
}

/// The order `String` sorts in: lexicographic over characters (UTF-8 byte
/// order is code point order).
pub open spec fn lex_lt(a: Seq<char>, b: Seq<char>) -> bool
    decreases a.len(),
{
    if a.len() == 0 {
        b.len() > 0
    } else if b.len() == 0 {
        false
    } else if a[0] != b[0] {
        a[0] < b[0]
    } else {
        lex_lt(a.drop_first(), b.drop_first())
    }
}

/// A set of strings kept the way a `BTreeSet` walks it: `x` is added in its
/// place in the order, unless it is already there.
pub open spec fn insert_sorted(s: Seq<Seq<char>>, x: Seq<char>) -> Seq<Seq<char>>
    decreases s.len(),
{
    if s.len() == 0 {
        seq![x]
    } else if s[0] == x {
        s
    } else if lex_lt(x, s[0]) {
        seq![x] + s
    } else {
        seq![s[0]] + insert_sorted(s.drop_first(), x)
    }
}

/// The distinct tokens, in the order a `BTreeSet` of them is walked.
pub open spec fn token_set(raw: Seq<Seq<char>>) -> Seq<Seq<char>>
    decreases raw.len(),
{
    if raw.len() == 0 {
        Seq::empty()
    } else {
        insert_sorted(token_set(raw.drop_last()), raw.last())
    }
}

pub open spec fn strictly_sorted(s: Seq<Seq<char>>) -> bool {
    forall|i: int, j: int| 0 <= i < j < s.len() ==> lex_lt(#[trigger] s[i], #[trigger] s[j])
}

pub(crate) proof fn lemma_lex_irrefl(a: Seq<char>)
    ensures
        !lex_lt(a, a),
    decreases a.len(),
{
    if a.len() > 0 {
        lemma_lex_irrefl(a.drop_first());
    }
}

pub(crate) proof fn lemma_lex_trans(a: Seq<char>, b: Seq<char>, c: Seq<char>)
    requires
        lex_lt(a, b),
        lex_lt(b, c),
    ensures
        lex_lt(a, c),
    decreases a.len(),
{
    if a.len() > 0 && b.len() > 0 && c.len() > 0 && a[0] == b[0] && b[0] == c[0] {
        lemma_lex_trans(a.drop_first(), b.drop_first(), c.drop_first());
    }
}

pub(crate) proof fn lemma_lex_total(a: Seq<char>, b: Seq<char>)
    ensures
        a == b || lex_lt(a, b) || lex_lt(b, a),
    decreases a.len(),
{
    if a.len() > 0 && b.len() > 0 && a[0] == b[0] {
        lemma_lex_total(a.drop_first(), b.drop_first());
        if a.drop_first() == b.drop_first() {
            assert(a == seq![a[0]] + a.drop_first());
            assert(b == seq![b[0]] + b.drop_first());
        }
    } else if a.len() == 0 && b.len() == 0 {
        assert(a == b);
    }
}

proof fn lemma_insert_sorted(s: Seq<Seq<char>>, x: Seq<char>)
    requires
        strictly_sorted(s),
    ensures
        strictly_sorted(insert_sorted(s, x)),
        forall|y: Seq<char>| #[trigger] insert_sorted(s, x).contains(y) <==> (s.contains(y) || y == x),
    decreases s.len(),
{
    let r = insert_sorted(s, x);
    if s.len() == 0 {
        assert(r == seq![x]);
        assert forall|y: Seq<char>| #[trigger] r.contains(y) <==> (s.contains(y) || y == x) by {
            if r.contains(y) {
                assert(r[0] == x);
            }
            if y == x {
                assert(r[0] == x);
            }
        }
    } else if s[0] == x {
    } else if lex_lt(x, s[0]) {
        assert forall|i: int, j: int| 0 <= i < j < r.len() implies lex_lt(#[trigger] r[i], #[trigger] r[j]) by {
            if i == 0 {
                if j > 1 {
                    lemma_lex_trans(x, s[0], s[j - 1]);
                }
            } else {
                assert(r[i] == s[i - 1] && r[j] == s[j - 1]);
            }
        }
        assert forall|y: Seq<char>| #[trigger] r.contains(y) <==> (s.contains(y) || y == x) by {
            if r.contains(y) {
                let k = choose|k: int| 0 <= k < r.len() && r[k] == y;
                if k > 0 {
                    assert(s[k - 1] == y);
                }
            }
            if s.contains(y) {
                let k = choose|k: int| 0 <= k < s.len() && s[k] == y;
                assert(r[k + 1] == y);
            }
            if y == x {
                assert(r[0] == x);
            }
        }
    } else {
        let t = s.drop_first();
        assert(strictly_sorted(t)) by {
            assert forall|i: int, j: int| 0 <= i < j < t.len() implies lex_lt(#[trigger] t[i], #[trigger] t[j]) by {
                assert(t[i] == s[i + 1] && t[j] == s[j + 1]);
            }
        }
        lemma_insert_sorted(t, x);
        let u = insert_sorted(t, x);
        assert(r == seq![s[0]] + u);
        lemma_lex_total(x, s[0]);
        assert forall|i: int, j: int| 0 <= i < j < r.len() implies lex_lt(#[trigger] r[i], #[trigger] r[j]) by {
            if i == 0 {
                assert(r[j] == u[j - 1]);
                assert(u.contains(u[j - 1]));
                if u[j - 1] != x {
                    assert(t.contains(u[j - 1]));
                    let k = choose|k: int| 0 <= k < t.len() && t[k] == u[j - 1];
                    assert(s[k + 1] == t[k]);
                }
            } else {
                assert(r[i] == u[i - 1] && r[j] == u[j - 1]);
            }
        }
        assert forall|y: Seq<char>| #[trigger] r.contains(y) <==> (s.contains(y) || y == x) by {
            if r.contains(y) {
                let k = choose|k: int| 0 <= k < r.len() && r[k] == y;
                if k > 0 {
                    assert(u[k - 1] == y);
                    assert(u.contains(y));
                    if t.contains(y) {
                        let m = choose|m: int| 0 <= m < t.len() && t[m] == y;
                        assert(s[m + 1] == y);
                    }
                } else {
                    assert(s[0] == y);
                }
            }
            if s.contains(y) {
                let k = choose|k: int| 0 <= k < s.len() && s[k] == y;
                if k > 0 {
                    assert(t[k - 1] == y);
                    assert(t.contains(y));
                    assert(u.contains(y));
                    let m = choose|m: int| 0 <= m < u.len() && u[m] == y;
                    assert(r[m + 1] == y);
                } else {
                    assert(r[0] == y);
                }
            }
            if y == x {
                assert(u.contains(x));
                let m = choose|m: int| 0 <= m < u.len() && u[m] == x;
                assert(r[m + 1] == x);
            }
        }
    }
}

proof fn lemma_insert_sorted_len(s: Seq<Seq<char>>, x: Seq<char>)
    ensures
        insert_sorted(s, x).len() <= s.len() + 1,
    decreases s.len(),
{
    if s.len() > 0 && s[0] != x && !lex_lt(x, s[0]) {
        lemma_insert_sorted_len(s.drop_first(), x);
    }
}

/// A set holds no more strings than were added to it.
pub proof fn lemma_token_set_len(raw: Seq<Seq<char>>)
    ensures
        token_set(raw).len() <= raw.len(),
    decreases raw.len(),
{
    if raw.len() > 0 {
        lemma_token_set_len(raw.drop_last());
        lemma_insert_sorted_len(token_set(raw.drop_last()), raw.last());
    }
}

/// The token set is what a `BTreeSet` of the tokens holds, in its order:
/// strictly sorted, with exactly the tokens given.
pub proof fn lemma_token_set(raw: Seq<Seq<char>>)
    ensures
        strictly_sorted(token_set(raw)),
        forall|y: Seq<char>| #[trigger] token_set(raw).contains(y) <==> raw.contains(y),
    decreases raw.len(),
{
    if raw.len() > 0 {
        lemma_token_set(raw.drop_last());
        lemma_insert_sorted(token_set(raw.drop_last()), raw.last());
        assert forall|y: Seq<char>| #[trigger] token_set(raw).contains(y) <==> raw.contains(y) by {
            if raw.drop_last().contains(y) {
                let k = choose|k: int| 0 <= k < raw.drop_last().len() && raw.drop_last()[k] == y;
                assert(raw[k] == y);
            }
            if raw.contains(y) && y != raw.last() {
                let k = choose|k: int| 0 <= k < raw.len() && raw[k] == y;
                assert(k < raw.len() - 1);
                assert(raw.drop_last()[k] == y);
            }
            if y == raw.last() {
                assert(raw[raw.len() - 1] == y);
            }
        }
    }
}

/// Whether `a` sorts before `b`.
pub(crate) fn lex_less(a: &Vec<char>, b: &Vec<char>) -> (r: bool)
    ensures
        r == lex_lt(a@, b@),
{
    let mut i: usize = 0;
    assert(a@.skip(0) == a@ && b@.skip(0) == b@);
    while i < a.len() && i < b.len() && a[i] == b[i]
        invariant
            i <= a@.len(),
            i <= b@.len(),
            lex_lt(a@, b@) == lex_lt(a@.skip(i as int), b@.skip(i as int)),
        decreases a@.len() - i,
    {
        assert(a@.skip(i as int).drop_first() == a@.skip(i + 1));
        assert(b@.skip(i as int).drop_first() == b@.skip(i + 1));
        i = i + 1;
    }
    if i == a.len() {
        i < b.len()
    } else if i == b.len() {
        false
    } else {
        assert(a@.skip(i as int)[0] == a@[i as int]);
        assert(b@.skip(i as int)[0] == b@[i as int]);
        a[i] < b[i]
    }
}

/// Adds a token to a set kept in `BTreeSet` order.
fn insert_token(set: &mut Vec<String>, x: String)
    ensures
        views(final(set)@) == insert_sorted(views(old(set)@), x@),
{
    let xs = chars_of(x.as_str());
    let mut rest: Vec<String> = Vec::new();
    std::mem::swap(&mut rest, set);
    let ghost orig = views(rest@);
    let mut i: usize = 0;
    let mut placed = false;
    let mut x = Some(x);
    assert(orig.skip(0) == orig);
    assert(views(set@) =~= Seq::<Seq<char>>::empty());
    while i < rest.len()
        invariant
            orig == views(rest@),
            i <= rest@.len(),
            !placed ==> (x is Some && x->Some_0@ == xs@),
            !placed ==> insert_sorted(orig, xs@) == views(set@) + insert_sorted(orig.skip(i as int), xs@),
            placed ==> insert_sorted(orig, xs@) == views(set@) + orig.skip(i as int),
        decreases rest@.len() - i,
    {
        let ghost tail = orig.skip(i as int);
        assert(tail[0] == orig[i as int]);
        assert(tail.drop_first() == orig.skip(i + 1));
        let ghost before = views(set@);
        if !placed {
            let cur = chars_of(rest[i].as_str());
            if str_eq(rest[i].as_str(), xs_str(&x)) {
                placed = true;
                let item = rest[i].clone();
                set.push(item);
                assert(views(set@) =~= before.push(orig[i as int]));
                assert(insert_sorted(tail, xs@) == tail);
                assert(tail == seq![tail[0]] + tail.drop_first());
                assert(views(set@) + orig.skip(i + 1) =~= before + tail);
            } else if lex_less(&xs, &cur) {
                placed = true;
                let taken = take_text(&mut x);
                set.push(taken);
                let ghost mid = views(set@);
                assert(mid =~= before.push(xs@));
                let item = rest[i].clone();
                set.push(item);
                assert(views(set@) =~= mid.push(orig[i as int]));
                assert(insert_sorted(tail, xs@) == seq![xs@] + tail);
                assert(tail == seq![tail[0]] + tail.drop_first());
                assert(views(set@) + orig.skip(i + 1) =~= before + (seq![xs@] + tail));
            } else {
                let item = rest[i].clone();
                set.push(item);
                assert(views(set@) =~= before.push(orig[i as int]));
                assert(insert_sorted(tail, xs@) == seq![tail[0]] + insert_sorted(tail.drop_first(), xs@));
                assert(views(set@) + insert_sorted(orig.skip(i + 1), xs@) =~= before + insert_sorted(tail, xs@));
            }
        } else {
            let item = rest[i].clone();
            set.push(item);
            assert(views(set@) =~= before.push(orig[i as int]));
            assert(tail == seq![tail[0]] + tail.drop_first());
            assert(views(set@) + orig.skip(i + 1) =~= before + tail);
        }
        i = i + 1;
    }
    assert(orig.skip(rest@.len() as int) =~= Seq::<Seq<char>>::empty());
    if !placed {
        let ghost before = views(set@);
        let taken = take_text(&mut x);
        set.push(taken);
        assert(views(set@) =~= before + seq![xs@]);
    } else {
        assert(views(set@) =~= views(set@) + Seq::<Seq<char>>::empty());
    }
}

fn xs_str(x: &Option<String>) -> (r: &str)
    requires
        x is Some,
    ensures
        r@ == x->Some_0@,
{
    match x {
        Some(s) => s.as_str(),
        None => "",
    }
}

fn take_text(x: &mut Option<String>) -> (r: String)
    requires
        (*old(x)) is Some,
    ensures
        r@ == (*old(x))->Some_0@,
        (*final(x)) is None,
{
    let mut out: Option<String> = None;
    std::mem::swap(&mut out, x);
    match out {
        Some(s) => s,
        None => String::new(),
    }
}

/// The distinct tokens, in the order a `BTreeSet` of them is walked.
pub fn token_set_of(raw: &Vec<String>) -> (set: Vec<String>)
    ensures
        views(set@) == token_set(views(raw@)),
{
    let mut set: Vec<String> = Vec::new();
    let mut i: usize = 0;
    assert(views(raw@).take(0) =~= Seq::<Seq<char>>::empty());
    while i < raw.len()
        invariant
            i <= raw@.len(),
            views(set@) == token_set(views(raw@).take(i as int)),
        decreases raw@.len() - i,
    {
        assert(views(raw@).take(i + 1).drop_last() == views(raw@).take(i as int));
        assert(views(raw@).take(i + 1).last() == raw@[i as int]@);
        insert_token(&mut set, raw[i].clone());
        i = i + 1;
    }
    assert(views(raw@).take(raw@.len() as int) == views(raw@));
    set
}

/// The slug token a TV standard states: its name in lower case.
pub open spec fn tv_token(t: TvStandard) -> Seq<char> {
    match t {
        TvStandard::Ntsc => "ntsc"@,
        TvStandard::Pal => "pal"@,
        TvStandard::PalM => "palm"@,
    }
}

/// The slug token a stated board gives: its code in lower case.
pub open spec fn board_tokens(b: Option<BoardValue>) -> Seq<Seq<char>> {
    match b {
        Some(board) => seq![lowercase(board.name@)],
        None => Seq::empty(),
    }
}

pub open spec fn tv_tokens(t: Option<TvStandard>) -> Seq<Seq<char>> {
    match t {
        Some(s) => seq![tv_token(s)],
        None => Seq::empty(),
    }
}

/// The VCS tokens of the releases: each one's TV standard, then its board.
pub open spec fn vcs_tokens(rs: Seq<Release<Vcs>>) -> Seq<Seq<char>>
    decreases rs.len(),
{
    if rs.len() == 0 {
        Seq::empty()
    } else {
        vcs_tokens(rs.drop_last()) + tv_tokens(rs.last().hardware.tv_format) + board_tokens(
            rs.last().hardware.cart_type,
        )
    }
}

/// The Game Boy tokens of the releases: each one's board.
pub open spec fn gb_tokens(rs: Seq<Release<GameBoy>>) -> Seq<Seq<char>>
    decreases rs.len(),
{
    if rs.len() == 0 {
        Seq::empty()
    } else {
        gb_tokens(rs.drop_last()) + board_tokens(rs.last().hardware.cart_type)
    }
}

/// The Game Boy Color tokens of the releases: each one's board.
pub open spec fn gbc_tokens(rs: Seq<Release<GameBoyColor>>) -> Seq<Seq<char>>
    decreases rs.len(),
{
    if rs.len() == 0 {
        Seq::empty()
    } else {
        gbc_tokens(rs.drop_last()) + board_tokens(rs.last().hardware.cart_type)
    }
}

fn push_board_token(out: &mut Vec<String>, b: &Option<BoardValue>)
    ensures
        views(final(out)@) == views(old(out)@) + board_tokens(*b),
{
    let ghost before = views(out@);
    match b {
        Some(board) => {
            let t = to_lowercase(board.name.as_str());
            out.push(t);
            assert(views(out@) =~= before + seq![lowercase(board.name@)]);
        },
        None => {
            assert(views(out@) =~= before + Seq::<Seq<char>>::empty());
        },
    }
}

/// Hardware facts an entry states about itself, as slug-shaped tokens.
pub trait SlugTokens: Platform + Sized {
    spec fn spec_tokens(game: Game<Self>) -> Seq<Seq<char>>;

    /// The tokens, in release order, with repeats.
    fn tokens(game: &Game<Self>) -> (r: Vec<String>)
        ensures
            views(r@) == Self::spec_tokens(*game),
    ;
}

impl SlugTokens for Vcs {
    open spec fn spec_tokens(game: Game<Vcs>) -> Seq<Seq<char>> {
        vcs_tokens(game.releases@)
    }

    fn tokens(game: &Game<Vcs>) -> (r: Vec<String>) {
        let mut out: Vec<String> = Vec::new();
        let mut i: usize = 0;
        assert(game.releases@.take(0) =~= Seq::<Release<Vcs>>::empty());
        assert(views(out@) =~= Seq::<Seq<char>>::empty());
        while i < game.releases.len()
            invariant
                i <= game.releases@.len(),
                views(out@) == vcs_tokens(game.releases@.take(i as int)),
            decreases game.releases@.len() - i,
        {
            let ghost pre = game.releases@.take(i as int);
            assert(game.releases@.take(i + 1).drop_last() == pre);
            assert(game.releases@.take(i + 1).last() == game.releases@[i as int]);
            let release = &game.releases[i];
            let ghost before = views(out@);
            match release.hardware.tv_format {
                Some(t) => {
                    let tok = match t {
                        TvStandard::Ntsc => owned("ntsc"),
                        TvStandard::Pal => owned("pal"),
                        TvStandard::PalM => owned("palm"),
                    };
                    out.push(tok);
                    assert(views(out@) =~= before + tv_tokens(release.hardware.tv_format));
                },
                None => {
                    assert(views(out@) =~= before + tv_tokens(release.hardware.tv_format));
                },
            }
            push_board_token(&mut out, &release.hardware.cart_type);
            i = i + 1;
        }
        assert(game.releases@.take(game.releases@.len() as int) == game.releases@);
        out
    }
}

impl SlugTokens for GameBoy {
    open spec fn spec_tokens(game: Game<GameBoy>) -> Seq<Seq<char>> {
        gb_tokens(game.releases@)
    }

    fn tokens(game: &Game<GameBoy>) -> (r: Vec<String>) {
        let mut out: Vec<String> = Vec::new();
        let mut i: usize = 0;
        assert(game.releases@.take(0) =~= Seq::<Release<GameBoy>>::empty());
        assert(views(out@) =~= Seq::<Seq<char>>::empty());
        while i < game.releases.len()
            invariant
                i <= game.releases@.len(),
                views(out@) == gb_tokens(game.releases@.take(i as int)),
            decreases game.releases@.len() - i,
        {
            assert(game.releases@.take(i + 1).drop_last() == game.releases@.take(i as int));
            assert(game.releases@.take(i + 1).last() == game.releases@[i as int]);
            push_board_token(&mut out, &game.releases[i].hardware.cart_type);
            i = i + 1;
        }
        assert(game.releases@.take(game.releases@.len() as int) == game.releases@);
        out
    }
}

impl SlugTokens for GameBoyColor {
    open spec fn spec_tokens(game: Game<GameBoyColor>) -> Seq<Seq<char>> {
        gbc_tokens(game.releases@)
    }

    fn tokens(game: &Game<GameBoyColor>) -> (r: Vec<String>) {
        let mut out: Vec<String> = Vec::new();
        let mut i: usize = 0;
        assert(game.releases@.take(0) =~= Seq::<Release<GameBoyColor>>::empty());
        assert(views(out@) =~= Seq::<Seq<char>>::empty());
        while i < game.releases.len()
            invariant
                i <= game.releases@.len(),
                views(out@) == gbc_tokens(game.releases@.take(i as int)),
            decreases game.releases@.len() - i,
        {
            assert(game.releases@.take(i + 1).drop_last() == game.releases@.take(i as int));
            assert(game.releases@.take(i + 1).last() == game.releases@[i as int]);
            push_board_token(&mut out, &game.releases[i].hardware.cart_type);
            i = i + 1;
        }
        assert(game.releases@.take(game.releases@.len() as int) == game.releases@);
        out
    }
}

/// The slug with a trailing `-token` dropped, if it ends so and something is
/// left before it.
pub open spec fn trim_token(slug: Seq<char>, token: Seq<char>) -> Option<Seq<char>> {
    let suffix = "-"@ + token;
    if ends_with(slug, suffix) && slug.len() > suffix.len() {
        Some(slug.take(slug.len() - suffix.len()))
    } else {
        None
    }
}

/// The first token, in the given order, that trims the slug.
pub open spec fn first_trim(slug: Seq<char>, tokens: Seq<Seq<char>>) -> Option<Seq<char>>
    decreases tokens.len(),
{
    if tokens.len() == 0 {
        None
    } else {
        match trim_token(slug, tokens[0]) {
            Some(head) => Some(head),
            None => first_trim(slug, tokens.drop_first()),
        }
    }
}

/// The slug with every trailing `-token` the tokens vouch for stripped.
pub open spec fn desired(slug: Seq<char>, tokens: Seq<Seq<char>>) -> Seq<char>
    decreases slug.len(),
{
    match first_trim(slug, tokens) {
        Some(head) => if head.len() < slug.len() {
            desired(head, tokens)
        } else {
            slug
        },
        None => slug,
    }
}

proof fn lemma_first_trim_shorter(slug: Seq<char>, tokens: Seq<Seq<char>>)
    ensures
        first_trim(slug, tokens) matches Some(h) ==> h.len() < slug.len(),
    decreases tokens.len(),
{
    reveal_strlit("-");
    if tokens.len() > 0 {
        lemma_first_trim_shorter(slug, tokens.drop_first());
    }
}

fn trimmed_by(slug: &Vec<char>, token: &String) -> (r: Option<Vec<char>>)
    ensures
        match trim_token(slug@, token@) {
            Some(h) => r matches Some(v) && v@ == h,
            None => r is None,
        },
{
    let mut suffix: Vec<char> = Vec::new();
    suffix.push('-');
    let t = chars_of(token.as_str());
    let mut k: usize = 0;
    while k < t.len()
        invariant
            k <= t@.len(),
            suffix@ == seq!['-'] + t@.take(k as int),
        decreases t@.len() - k,
    {
        suffix.push(t[k]);
        assert(t@.take(k + 1) == t@.take(k as int).push(t@[k as int]));
        k = k + 1;
    }
    proof {
        reveal_strlit("-");
        assert(t@.take(t@.len() as int) == t@);
        assert(suffix@ =~= "-"@ + token@);
    }
    let n = slug.len();
    if suffix.len() < n && matches_tail(slug, &suffix) {
        let head = slice_of(slug, 0, n - suffix.len());
        assert(head@ == slug@.take(slug@.len() - suffix@.len()));
        Some(head)
    } else {
        None
    }
}

fn matches_tail(v: &Vec<char>, suffix: &Vec<char>) -> (b: bool)
    requires
        suffix@.len() <= v@.len(),
    ensures
        b == ends_with(v@, suffix@),
{
    let n = v.len();
    let at = n - suffix.len();
    let r = crate::strings::matches_at(v, suffix, at);
    assert(r == (v@.subrange(at as int, at + suffix@.len()) == suffix@));
    r
}

/// Strips every trailing `-token` the tokens vouch for, trying the tokens in
/// the order given (the token set's order) each time.
pub fn desired_slug(slug: &str, tokens: &Vec<String>) -> (r: String)
    ensures
        r@ == desired(slug@, views(tokens@)),
{
    let mut cur = chars_of(slug);
    loop
        invariant
            desired(slug@, views(tokens@)) == desired(cur@, views(tokens@)),
        decreases cur@.len(),
    {
        let mut i: usize = 0;
        let mut found: Option<Vec<char>> = None;
        assert(views(tokens@).skip(0) == views(tokens@));
        while i < tokens.len() && found.is_none()
            invariant
                i <= tokens@.len(),
                found is None ==> first_trim(cur@, views(tokens@)) == first_trim(cur@, views(tokens@).skip(i as int)),
                found matches Some(h) ==> first_trim(cur@, views(tokens@)) == Some(h@),
            decreases tokens@.len() - i,
        {
            let ghost rest = views(tokens@).skip(i as int);
            assert(rest[0] == tokens@[i as int]@);
            assert(rest.drop_first() == views(tokens@).skip(i + 1));
            found = trimmed_by(&cur, &tokens[i]);
            i = i + 1;
        }
        proof {
            lemma_first_trim_shorter(cur@, views(tokens@));
        }
        match found {
            Some(head) => {
                cur = head;
            },
            None => {
                assert(views(tokens@).skip(i as int).len() == 0);
                return string_from(cur.as_slice());
            },
        }
    }
}

/// The slug an entry should have: its own with the suffixes its hardware
/// vouches for stripped, the tokens tried in set order.
pub open spec fn wanted_of<P: SlugTokens>(e: Entry<P>) -> Seq<char> {
    desired(e.slug@, token_set(P::spec_tokens(e.game)))
}

pub open spec fn wanted_all<P: SlugTokens>(es: Seq<Entry<P>>) -> Seq<Seq<char>> {
    es.map_values(|e: Entry<P>| wanted_of(e))
}

/// Whether an entry that stays put already holds the slug `w`.
pub open spec fn held_by_unmoved<P: SlugTokens>(es: Seq<Entry<P>>, ws: Seq<Seq<char>>, w: Seq<char>) -> bool {
    exists|i: int| 0 <= i < es.len() && es[i].slug@ == ws[i] && #[trigger] ws[i] == w
}

/// A report line for a move from one slug to another.
pub open spec fn move_line(dir: Seq<char>, from: Seq<char>, to: Seq<char>, title: Seq<char>) -> Seq<char> {
    dir + "/"@ + from + " → "@ + dir + "/"@ + to + ": "@ + debug_str(title)
}

/// Going through the first `k` entries: the renames to make, in order, and
/// the report lines for the moves a contested slug blocks.
pub open spec fn plan_upto<P: SlugTokens>(es: Seq<Entry<P>>, ws: Seq<Seq<char>>, dir: Seq<char>, k: int) -> (
    Seq<(Seq<char>, Seq<char>)>,
    Seq<Seq<char>>,
)
    decreases k,
{
    if k <= 0 {
        (Seq::empty(), Seq::empty())
    } else {
        let (renames, kept) = plan_upto(es, ws, dir, k - 1);
        let e = es[k - 1];
        let w = ws[k - 1];
        if e.slug@ == w {
            (renames, kept)
        } else if held_by_unmoved(es, ws, w) || count_equal(ws, w) > 1 {
            (renames, kept.push(move_line(dir, e.slug@, w, e.game.title@)))
        } else {
            (renames.push((e.slug@, w)), kept)
        }
    }
}

pub open spec fn slug_plan<P: SlugTokens>(es: Seq<Entry<P>>) -> (Seq<(Seq<char>, Seq<char>)>, Seq<Seq<char>>) {
    plan_upto(es, wanted_all(es), P::spec_dir(), es.len() as int)
}

/// The index of the first entry filed under `slug`.
pub open spec fn first_with_slug<P: Platform>(es: Seq<Entry<P>>, slug: Seq<char>) -> int
    decreases es.len(),
{
    if es.len() == 0 {
        0
    } else if es.last().slug@ == slug && (forall|i: int| 0 <= i < es.len() - 1 ==> #[trigger] es[i].slug@ != slug) {
        es.len() - 1
    } else {
        first_with_slug(es.drop_last(), slug)
    }
}

/// The "Renamed" report lines, one per rename, each naming the title of the
/// entry the rename moves.
pub open spec fn renamed_lines<P: Platform>(es: Seq<Entry<P>>, renames: Seq<(Seq<char>, Seq<char>)>, dir: Seq<char>) -> Seq<Seq<char>> {
    renames.map_values(|r: (Seq<char>, Seq<char>)| move_line(dir, r.0, r.1, es[first_with_slug(es, r.0)].game.title@))
}

/// Where a flag subject moved: the new `tree/slug` of the last rename whose old
/// `tree/slug` it is.
pub open spec fn moved_to(renames: Seq<(Seq<char>, Seq<char>)>, dir: Seq<char>, subject: Seq<char>) -> Option<Seq<char>>
    decreases renames.len(),
{
    if renames.len() == 0 {
        None
    } else if dir + "/"@ + renames.last().0 == subject {
        Some(dir + "/"@ + renames.last().1)
    } else {
        moved_to(renames.drop_last(), dir, subject)
    }
}

pub open spec fn remapped(subjects: Seq<Seq<char>>, renames: Seq<(Seq<char>, Seq<char>)>, dir: Seq<char>) -> Seq<Seq<char>> {
    subjects.map_values(|s: Seq<char>| match moved_to(renames, dir, s) {
        Some(n) => n,
        None => s,
    })
}

/// How many of the subjects a rename moves.
pub open spec fn moved_count(subjects: Seq<Seq<char>>, renames: Seq<(Seq<char>, Seq<char>)>, dir: Seq<char>) -> nat
    decreases subjects.len(),
{
    if subjects.len() == 0 {
        0
    } else {
        moved_count(subjects.drop_last(), renames, dir) + if moved_to(renames, dir, subjects.last()) is Some {
            1nat
        } else {
            0nat
        }
    }
}

pub open spec fn flags_moved(flags: Seq<Flag>, renames: Seq<(Seq<char>, Seq<char>)>, dir: Seq<char>) -> nat
    decreases flags.len(),
{
    if flags.len() == 0 {
        0
    } else {
        flags_moved(flags.drop_last(), renames, dir) + moved_count(views(flags.last().subject@), renames, dir)
    }
}

/// How many subjects the flags name in all.
pub open spec fn subject_total(flags: Seq<Flag>) -> nat
    decreases flags.len(),
{
    if flags.len() == 0 {
        0
    } else {
        subject_total(flags.drop_last()) + flags.last().subject@.len()
    }
}

/// `a` is the flag `b` with each subject a rename moves following it.
pub open spec fn follows(b: Flag, a: Flag, renames: Seq<(Seq<char>, Seq<char>)>, dir: Seq<char>) -> bool {
    &&& a.id == b.id
    &&& a.kind == b.kind
    &&& a.note@ == b.note@
    &&& views(a.subject@) == remapped(views(b.subject@), renames, dir)
}

/// `after` is `before` with every flag subject a rename moves following it.
pub open spec fn followed(before: Seq<Flag>, after: Seq<Flag>, renames: Seq<(Seq<char>, Seq<char>)>, dir: Seq<char>) -> bool {
    &&& after.len() == before.len()
    &&& forall|i: int| 0 <= i < before.len() ==> follows(before[i], #[trigger] after[i], renames, dir)
}

pub open spec fn rename_views(v: Seq<(String, String)>) -> Seq<(Seq<char>, Seq<char>)> {
    v.map_values(|p: (String, String)| (p.0@, p.1@))
}

proof fn lemma_plan_bounds<P: SlugTokens>(es: Seq<Entry<P>>, ws: Seq<Seq<char>>, dir: Seq<char>, k: int)
    requires
        0 <= k,
    ensures
        plan_upto(es, ws, dir, k).0.len() + plan_upto(es, ws, dir, k).1.len() <= k,
    decreases k,
{
    if k > 0 {
        lemma_plan_bounds(es, ws, dir, k - 1);
    }
}

proof fn lemma_plan_prefix<P: SlugTokens>(es: Seq<Entry<P>>, ws: Seq<Seq<char>>, dir: Seq<char>, k: int, n: int)
    requires
        0 <= k <= n,
    ensures
        plan_upto(es, ws, dir, k).0.len() <= plan_upto(es, ws, dir, n).0.len(),
        plan_upto(es, ws, dir, k).1.len() <= plan_upto(es, ws, dir, n).1.len(),
        plan_upto(es, ws, dir, n).0.take(plan_upto(es, ws, dir, k).0.len() as int) == plan_upto(es, ws, dir, k).0,
    decreases n - k,
{
    if k < n {
        lemma_plan_prefix(es, ws, dir, k, n - 1);
        let a = plan_upto(es, ws, dir, k).0;
        let b = plan_upto(es, ws, dir, n - 1).0;
        let c = plan_upto(es, ws, dir, n).0;
        assert(c.take(a.len() as int) =~= b.take(a.len() as int));
    }
}

/// Each planned rename moves an entry of the tree.
proof fn lemma_plan_sources<P: SlugTokens>(es: Seq<Entry<P>>, ws: Seq<Seq<char>>, dir: Seq<char>, k: int)
    requires
        0 <= k <= es.len(),
    ensures
        forall|j: int|
            0 <= j < plan_upto(es, ws, dir, k).0.len() ==> exists|i: int|
                0 <= i < k && #[trigger] es[i].slug@ == (#[trigger] plan_upto(es, ws, dir, k).0[j]).0,
    decreases k,
{
    if k > 0 {
        lemma_plan_sources(es, ws, dir, k - 1);
        let pre = plan_upto(es, ws, dir, k - 1).0;
        let cur = plan_upto(es, ws, dir, k).0;
        assert forall|j: int| 0 <= j < cur.len() implies exists|i: int|
            0 <= i < k && #[trigger] es[i].slug@ == (#[trigger] cur[j]).0 by {
            if j < pre.len() {
                assert(cur[j] == pre[j]);
                let i = choose|i: int| 0 <= i < k - 1 && #[trigger] es[i].slug@ == (#[trigger] pre[j]).0;
                assert(es[i].slug@ == cur[j].0);
            } else {
                assert(es[k - 1].slug@ == cur[j].0);
            }
        }
    }
}

proof fn lemma_first_with_slug<P: Platform>(es: Seq<Entry<P>>, slug: Seq<char>, i: int)
    requires
        0 <= i < es.len(),
        es[i].slug@ == slug,
    ensures
        0 <= first_with_slug(es, slug) <= i,
        es[first_with_slug(es, slug)].slug@ == slug,
        forall|k: int| 0 <= k < first_with_slug(es, slug) ==> #[trigger] es[k].slug@ != slug,
    decreases es.len(),
{
    let n = es.len() - 1;
    if exists|k: int| 0 <= k < n && #[trigger] es[k].slug@ == slug {
        let k = choose|k: int| 0 <= k < n && #[trigger] es[k].slug@ == slug;
        assert(es.drop_last()[k] == es[k]);
        let m = if i < n { i } else { k };
        assert(es.drop_last()[m] == es[m]);
        lemma_first_with_slug(es.drop_last(), slug, m);
        let f = first_with_slug(es.drop_last(), slug);
        assert(es.drop_last()[f] == es[f]);
        assert forall|q: int| 0 <= q < f implies #[trigger] es[q].slug@ != slug by {
            assert(es.drop_last()[q] == es[q]);
        }
        if m == k && i == n {
        }
    } else {
        assert(i == n);
        assert forall|q: int| 0 <= q < n implies #[trigger] es[q].slug@ != slug by {}
    }
}

fn is_held(entries: &Vec<Entry<impl SlugTokens>>, wanted: &Vec<String>, w: &String) -> (b: bool)
    requires
        views(wanted@).len() == entries@.len(),
    ensures
        b == held_by_unmoved(entries@, views(wanted@), w@),
{
    let mut j: usize = 0;
    while j < entries.len()
        invariant
            views(wanted@).len() == entries@.len(),
            j <= entries@.len(),
            forall|k: int| 0 <= k < j ==> !(entries@[k].slug@ == views(wanted@)[k] && #[trigger] views(wanted@)[k] == w@),
        decreases entries@.len() - j,
    {
        if str_eq(entries[j].slug.as_str(), wanted[j].as_str()) && str_eq(wanted[j].as_str(), w.as_str()) {
            assert(views(wanted@)[j as int] == wanted@[j as int]@);
            return true;
        }
        assert(views(wanted@)[j as int] == wanted@[j as int]@);
        j = j + 1;
    }
    false
}

fn move_text(dir: &str, from: &str, to: &str, title: &str) -> (r: String)
    ensures
        r@ == move_line(dir@, from@, to@, title@),
{
    let mut r = owned(dir);
    push_str(&mut r, "/");
    push_str(&mut r, from);
    push_str(&mut r, " → ");
    push_str(&mut r, dir);
    push_str(&mut r, "/");
    push_str(&mut r, to);
    push_str(&mut r, ": ");
    let q = debug_quoted(title);
    push_str(&mut r, q.as_str());
    r
}

fn moved_subject(renames: &Vec<(String, String)>, dir: &str, subject: &String) -> (r: Option<String>)
    ensures
        match moved_to(rename_views(renames@), dir@, subject@) {
            Some(n) => r matches Some(s) && s@ == n,
            None => r is None,
        },
{
    let mut k: usize = renames.len();
    assert(rename_views(renames@).take(k as int) == rename_views(renames@));
    while k > 0
        invariant
            k <= renames@.len(),
            moved_to(rename_views(renames@), dir@, subject@) == moved_to(rename_views(renames@).take(k as int), dir@, subject@),
        decreases k,
    {
        let ghost pre = rename_views(renames@).take(k as int);
        assert(pre.drop_last() == rename_views(renames@).take(k - 1));
        assert(pre.last() == (renames@[k - 1].0@, renames@[k - 1].1@));
        let mut old_ref = owned(dir);
        push_str(&mut old_ref, "/");
        push_str(&mut old_ref, renames[k - 1].0.as_str());
        if str_eq(old_ref.as_str(), subject.as_str()) {
            let mut new_ref = owned(dir);
            push_str(&mut new_ref, "/");
            push_str(&mut new_ref, renames[k - 1].1.as_str());
            return Some(new_ref);
        }
        k = k - 1;
    }
    None
}

/// Plans the slug cleanup of a tree: returns the renames to make (old slug,
/// new slug), in tree order. A move whose bare slug an unmoved entry holds,
/// or several entries want, is kept and reported instead; each rename is
/// reported; flag subjects follow the renames. Counts all three.
pub fn fix_tree<P: SlugTokens>(
    tree: &Tree<P>,
    report: &mut Report,
    stats: &mut Stats,
    flags: &mut FlagFile,
) -> (renames: Vec<(String, String)>)
    requires
        total_items(old(report)@) + 2 * tree.games@.len() < usize::MAX,
        old(stats).renamed + tree.games@.len() <= usize::MAX,
        old(stats).collisions + tree.games@.len() <= usize::MAX,
        old(stats).subjects + subject_total(old(flags).flags@) <= usize::MAX,
    ensures
        rename_views(renames@) == slug_plan(tree.games@).0,
        final(report)@ == added_all(
            added_all(old(report)@, "Slug kept: bare slug is contested"@, slug_plan(tree.games@).1),
            "Renamed"@,
            renamed_lines(tree.games@, slug_plan(tree.games@).0, P::spec_dir()),
        ),
        followed(old(flags).flags@, final(flags).flags@, slug_plan(tree.games@).0, P::spec_dir()),
        final(stats).renamed == old(stats).renamed + slug_plan(tree.games@).0.len(),
        final(stats).collisions == old(stats).collisions + slug_plan(tree.games@).1.len(),
        final(stats).subjects == old(stats).subjects + flags_moved(old(flags).flags@, slug_plan(tree.games@).0, P::spec_dir()),
{
    let ghost es = tree.games@;
    let dir = P::dir();
    let ghost ws = wanted_all(es);
    // What each entry's slug should be.
    let mut wanted: Vec<String> = Vec::new();
    let mut i: usize = 0;
    while i < tree.games.len()
        invariant
            i <= es.len(),
            es == tree.games@,
            ws == wanted_all(es),
            views(wanted@) == ws.take(i as int),
        decreases es.len() - i,
    {
        let entry = &tree.games[i];
        let raw = P::tokens(&entry.game);
        let set = token_set_of(&raw);
        let w = desired_slug(entry.slug.as_str(), &set);
        let ghost before = views(wanted@);
        wanted.push(w);
        assert(views(wanted@) =~= before.push(w@));
        assert(ws.take(i + 1) =~= ws.take(i as int).push(wanted_of(es[i as int])));
        i = i + 1;
    }
    assert(ws.take(es.len() as int) == ws);
    proof {
        use_type_invariant(&*report);
        lemma_plan_bounds(es, ws, dir@, es.len() as int);
    }
    let ghost r0 = report@;
    let ghost s0 = *stats;
    // Moves, and the moves a contested slug keeps.
    let mut renames: Vec<(String, String)> = Vec::new();
    let mut k: usize = 0;
    while k < tree.games.len()
        invariant
            k <= es.len(),
            es == tree.games@,
            views(wanted@) == ws,
            ws == wanted_all(es),
            dir@ == P::spec_dir(),
            rename_views(renames@) == plan_upto(es, ws, dir@, k as int).0,
            report@ == added_all(r0, "Slug kept: bare slug is contested"@, plan_upto(es, ws, dir@, k as int).1),
            distinct_headings(r0),
            total_items(r0) + 2 * es.len() < usize::MAX,
            stats.renamed == s0.renamed,
            stats.subjects == s0.subjects,
            stats.collisions == s0.collisions + plan_upto(es, ws, dir@, k as int).1.len(),
            s0.collisions + es.len() <= usize::MAX,
        decreases es.len() - k,
    {
        proof {
            lemma_plan_bounds(es, ws, dir@, k + 1);
            lemma_added_all(r0, "Slug kept: bare slug is contested"@, plan_upto(es, ws, dir@, k as int).1);
        }
        let entry = &tree.games[k];
        let w = &wanted[k];
        assert(w@ == ws[k as int]);
        if str_eq(entry.slug.as_str(), w.as_str()) {
        } else {
            let held = is_held(&tree.games, &wanted, w);
            let claims = count_text(&wanted, w);
            if held || claims > 1 {
                let line = move_text(dir, entry.slug.as_str(), w.as_str(), entry.game.title.as_str());
                let ghost before = report@;
                report.add("Slug kept: bare slug is contested", line);
                stats.collisions = stats.collisions + 1;
                proof {
                    let c = plan_upto(es, ws, dir@, k + 1).1;
                    assert(c.drop_last() == plan_upto(es, ws, dir@, k as int).1);
                    assert(c.last() == line@);
                }
            } else {
                let ghost before = rename_views(renames@);
                renames.push((owned(entry.slug.as_str()), owned(w.as_str())));
                assert(rename_views(renames@) =~= before.push((entry.slug@, w@)));
            }
        }
        k = k + 1;
    }
    let ghost plan = plan_upto(es, ws, dir@, es.len() as int);
    let n_entries = tree.games.len();
    assert(es.len() == n_entries);
    proof {
        lemma_plan_sources(es, ws, dir@, es.len() as int);
        lemma_added_all(r0, "Slug kept: bare slug is contested"@, plan.1);
    }
    let ghost r1 = report@;
    // Every rename, reported with the title of the entry it moves.
    let mut m: usize = 0;
    assert(renamed_lines(es, plan.0, dir@).take(0) =~= Seq::<Seq<char>>::empty());
    while m < renames.len()
        invariant
            m <= renames@.len(),
            es == tree.games@,
            dir@ == P::spec_dir(),
            rename_views(renames@) == plan.0,
            plan.0.len() + plan.1.len() <= es.len(),
            forall|j: int|
                0 <= j < plan.0.len() ==> exists|i: int| 0 <= i < es.len() && #[trigger] es[i].slug@ == (#[trigger] plan.0[j]).0,
            report@ == added_all(r1, "Renamed"@, renamed_lines(es, plan.0, dir@).take(m as int)),
            distinct_headings(r1),
            total_items(r1) == total_items(r0) + plan.1.len(),
            total_items(r0) + 2 * es.len() < usize::MAX,
            stats.renamed == s0.renamed + m,
            stats.collisions == s0.collisions + plan.1.len(),
            stats.subjects == s0.subjects,
            s0.renamed + es.len() <= usize::MAX,
            es.len() <= usize::MAX,
        decreases renames@.len() - m,
    {
        proof {
            lemma_added_all(r1, "Renamed"@, renamed_lines(es, plan.0, dir@).take(m as int));
        }
        let old_slug = &renames[m].0;
        let ghost src = choose|i: int| 0 <= i < es.len() && #[trigger] es[i].slug@ == (#[trigger] plan.0[m as int]).0;
        assert(plan.0[m as int] == (renames@[m as int].0@, renames@[m as int].1@));
        proof {
            lemma_first_with_slug(es, old_slug@, src);
        }
        let mut at: usize = 0;
        while !str_eq(tree.games[at].slug.as_str(), old_slug.as_str())
            invariant
                es == tree.games@,
                es.len() <= usize::MAX,
                0 <= at <= first_with_slug(es, old_slug@),
                first_with_slug(es, old_slug@) < es.len(),
                es[first_with_slug(es, old_slug@)].slug@ == old_slug@,
                forall|q: int| 0 <= q < first_with_slug(es, old_slug@) ==> #[trigger] es[q].slug@ != old_slug@,
            decreases first_with_slug(es, old_slug@) - at,
        {
            at = at + 1;
        }
        let line = move_text(dir, old_slug.as_str(), renames[m].1.as_str(), tree.games[at].game.title.as_str());
        proof {
            let lines = renamed_lines(es, plan.0, dir@);
            assert(lines.take(m + 1).drop_last() == lines.take(m as int));
            assert(lines.take(m + 1).last() == line@);
        }
        report.add("Renamed", line);
        stats.renamed = stats.renamed + 1;
        m = m + 1;
    }
    assert(renamed_lines(es, plan.0, dir@).take(renames@.len() as int) == renamed_lines(es, plan.0, dir@));
    // Flag subjects follow the renames.
    let mut rest: Vec<Flag> = Vec::new();
    std::mem::swap(&mut rest, &mut flags.flags);
    let ghost f0 = rest@;
    let ghost r2 = report@;
    let mut f: usize = 0;
    assert(f0.take(0) =~= Seq::<Flag>::empty());
    while f < rest.len()
        invariant
            f <= rest@.len(),
            report@ == r2,
            stats.renamed == s0.renamed + plan.0.len(),
            stats.collisions == s0.collisions + plan.1.len(),
            f0 == rest@,
            dir@ == P::spec_dir(),
            rename_views(renames@) == plan.0,
            flags.flags@.len() == f,
            forall|i: int| 0 <= i < f ==> follows(f0[i], #[trigger] flags.flags@[i], plan.0, dir@),
            stats.subjects == s0.subjects + flags_moved(f0.take(f as int), plan.0, dir@),
            s0.subjects + subject_total(f0) <= usize::MAX,
        decreases rest@.len() - f,
    {
        proof {
            lemma_flags_moved_prefix(f0, plan.0, dir@, f + 1);
            assert(f0.take(f + 1).drop_last() == f0.take(f as int));
            assert(f0.take(f + 1).last() == f0[f as int]);
        }
        let flag = &rest[f];
        let mut subject: Vec<String> = Vec::new();
        let mut q: usize = 0;
        let ghost subs = views(flag.subject@);
        let ghost fl = flags.flags@;
        assert(subs.take(0) =~= Seq::<Seq<char>>::empty());
        while q < flag.subject.len()
            invariant
                q <= subs.len(),
                flags.flags@ == fl,
                subs == views(flag.subject@),
                rename_views(renames@) == plan.0,
                stats.renamed == s0.renamed + plan.0.len(),
                stats.collisions == s0.collisions + plan.1.len(),
                views(subject@) == remapped(subs.take(q as int), plan.0, dir@),
                stats.subjects == s0.subjects + flags_moved(f0.take(f as int), plan.0, dir@) + moved_count(subs.take(q as int), plan.0, dir@),
                s0.subjects + flags_moved(f0.take(f as int), plan.0, dir@) + moved_count(subs, plan.0, dir@) <= usize::MAX,
            decreases subs.len() - q,
        {
            proof {
                lemma_moved_count_prefix(subs, plan.0, dir@, q + 1);
                assert(subs.take(q + 1).drop_last() == subs.take(q as int));
                assert(subs.take(q + 1).last() == flag.subject@[q as int]@);
            }
            let ghost before = views(subject@);
            let ghost target = match moved_to(plan.0, dir@, subs[q as int]) {
                Some(n) => n,
                None => subs[q as int],
            };
            assert(subs[q as int] == flag.subject@[q as int]@);
            match moved_subject(&renames, dir, &flag.subject[q]) {
                Some(n) => {
                    subject.push(n);
                    stats.subjects = stats.subjects + 1;
                },
                None => {
                    subject.push(flag.subject[q].clone());
                },
            }
            assert(views(subject@) =~= before.push(target));
            assert(remapped(subs.take(q + 1), plan.0, dir@) =~= remapped(subs.take(q as int), plan.0, dir@).push(target));
            q = q + 1;
        }
        assert(subs.take(subs.len() as int) == subs);
        let ghost before = flags.flags@;
        let ghost new_subs = views(subject@);
        assert(new_subs == remapped(views(f0[f as int].subject@), plan.0, dir@));
        let nf = Flag { id: flag.id, kind: flag.kind, subject, note: flag.note.clone() };
        assert(nf.id == f0[f as int].id && nf.kind == f0[f as int].kind && nf.note@ == f0[f as int].note@);
        assert(views(nf.subject@) == new_subs);
        flags.flags.push(nf);
        proof {
            assert(flags.flags@[f as int] == nf);
            assert forall|i: int| 0 <= i < f + 1 implies follows(f0[i], #[trigger] flags.flags@[i], plan.0, dir@) by {
                if i < f {
                    assert(flags.flags@[i] == before[i]);
                } else {
                    assert(flags.flags@[i] == nf);
                }
            }
        }
        f = f + 1;
    }
    assert(f0.take(f0.len() as int) == f0);
    renames
}

proof fn lemma_moved_count_prefix(subs: Seq<Seq<char>>, renames: Seq<(Seq<char>, Seq<char>)>, dir: Seq<char>, k: int)
    requires
        0 <= k <= subs.len(),
    ensures
        moved_count(subs.take(k), renames, dir) <= moved_count(subs, renames, dir),
    decreases subs.len() - k,
{
    if k < subs.len() {
        lemma_moved_count_prefix(subs, renames, dir, k + 1);
        assert(subs.take(k + 1).drop_last() == subs.take(k));
    } else {
        assert(subs.take(k) == subs);
    }
}

proof fn lemma_moved_count_bound(subs: Seq<Seq<char>>, renames: Seq<(Seq<char>, Seq<char>)>, dir: Seq<char>)
    ensures
        moved_count(subs, renames, dir) <= subs.len(),
    decreases subs.len(),
{
    if subs.len() > 0 {
        lemma_moved_count_bound(subs.drop_last(), renames, dir);
    }
}

proof fn lemma_flags_moved_bound(flags: Seq<Flag>, renames: Seq<(Seq<char>, Seq<char>)>, dir: Seq<char>)
    ensures
        flags_moved(flags, renames, dir) <= subject_total(flags),
    decreases flags.len(),
{
    if flags.len() > 0 {
        lemma_flags_moved_bound(flags.drop_last(), renames, dir);
        lemma_moved_count_bound(views(flags.last().subject@), renames, dir);
    }
}

proof fn lemma_flags_moved_prefix(flags: Seq<Flag>, renames: Seq<(Seq<char>, Seq<char>)>, dir: Seq<char>, k: int)
    requires
        0 <= k <= flags.len(),
    ensures
        flags_moved(flags.take(k), renames, dir) <= flags_moved(flags, renames, dir),
        flags_moved(flags, renames, dir) <= subject_total(flags),
    decreases flags.len() - k,
{
    lemma_flags_moved_bound(flags, renames, dir);
    if k < flags.len() {
        lemma_flags_moved_prefix(flags, renames, dir, k + 1);
        assert(flags.take(k + 1).drop_last() == flags.take(k));
    } else {
        assert(flags.take(k) == flags);
    }
}

/// The entry each planned rename of the first `k` entries moves.
pub open spec fn plan_sources<P: SlugTokens>(es: Seq<Entry<P>>, ws: Seq<Seq<char>>, k: int) -> Seq<int>
    decreases k,
{
    if k <= 0 {
        Seq::empty()
    } else {
        let pre = plan_sources(es, ws, k - 1);
        let w = ws[k - 1];
        if es[k - 1].slug@ == w || held_by_unmoved(es, ws, w) || count_equal(ws, w) > 1 {
            pre
        } else {
            pre.push(k - 1)
        }
    }
}

proof fn lemma_plan_sources_exact<P: SlugTokens>(es: Seq<Entry<P>>, ws: Seq<Seq<char>>, dir: Seq<char>, k: int)
    requires
        0 <= k <= es.len(),
        ws.len() == es.len(),
    ensures
        plan_sources(es, ws, k).len() == plan_upto(es, ws, dir, k).0.len(),
        forall|j: int|
            0 <= j < plan_sources(es, ws, k).len() ==> {
                let i = #[trigger] plan_sources(es, ws, k)[j];
                &&& 0 <= i < k
                &&& plan_upto(es, ws, dir, k).0[j] == (es[i].slug@, ws[i])
                &&& es[i].slug@ != ws[i]
                &&& !held_by_unmoved(es, ws, ws[i])
                &&& count_equal(ws, ws[i]) <= 1
            },
        forall|a: int, b: int|
            0 <= a < b < plan_sources(es, ws, k).len() ==> #[trigger] plan_sources(es, ws, k)[a]
                < #[trigger] plan_sources(es, ws, k)[b],
    decreases k,
{
    if k > 0 {
        lemma_plan_sources_exact(es, ws, dir, k - 1);
        let pre = plan_sources(es, ws, k - 1);
        let cur = plan_sources(es, ws, k);
        let rp = plan_upto(es, ws, dir, k - 1).0;
        let rc = plan_upto(es, ws, dir, k).0;
        assert forall|j: int| 0 <= j < cur.len() implies {
            let i = #[trigger] cur[j];
            &&& 0 <= i < k
            &&& rc[j] == (es[i].slug@, ws[i])
            &&& es[i].slug@ != ws[i]
            &&& !held_by_unmoved(es, ws, ws[i])
            &&& count_equal(ws, ws[i]) <= 1
        } by {
            if j < pre.len() {
                assert(cur[j] == pre[j]);
                assert(rc[j] == rp[j]);
            }
        }
        assert forall|a: int, b: int| 0 <= a < b < cur.len() implies #[trigger] cur[a] < #[trigger] cur[b] by {
            if b < pre.len() {
                assert(cur[a] == pre[a] && cur[b] == pre[b]);
            } else {
                assert(cur[a] == pre[a]);
            }
        }
    }
}

proof fn lemma_count_two(ws: Seq<Seq<char>>, a: int, b: int)
    requires
        0 <= a < b < ws.len(),
        ws[a] == ws[b],
    ensures
        count_equal(ws, ws[a]) >= 2,
    decreases ws.len(),
{
    if b < ws.len() - 1 {
        assert(ws.drop_last()[a] == ws[a] && ws.drop_last()[b] == ws[b]);
        lemma_count_two(ws.drop_last(), a, b);
    } else {
        assert(ws.drop_last()[a] == ws[a]);
        lemma_count_one(ws.drop_last(), a);
    }
}

proof fn lemma_count_one(ws: Seq<Seq<char>>, a: int)
    requires
        0 <= a < ws.len(),
    ensures
        count_equal(ws, ws[a]) >= 1,
    decreases ws.len(),
{
    if a < ws.len() - 1 {
        assert(ws.drop_last()[a] == ws[a]);
        lemma_count_one(ws.drop_last(), a);
    }
}

/// The renames a cleanup plans never collide: no two move onto the same
/// slug, and none moves onto the slug of an entry that stays put.
pub proof fn lemma_renames_uncontested<P: SlugTokens>(es: Seq<Entry<P>>)
    ensures
        forall|a: int, b: int|
            0 <= a < b < slug_plan(es).0.len() ==> (#[trigger] slug_plan(es).0[a]).1 != (
            #[trigger] slug_plan(es).0[b]).1,
        forall|a: int, i: int|
            0 <= a < slug_plan(es).0.len() && 0 <= i < es.len() && (#[trigger] es[i]).slug@
                == wanted_all(es)[i] ==> (#[trigger] slug_plan(es).0[a]).1 != es[i].slug@,
{
    let ws = wanted_all(es);
    let dir = P::spec_dir();
    let n = es.len() as int;
    lemma_plan_sources_exact(es, ws, dir, n);
    let src = plan_sources(es, ws, n);
    let plan = slug_plan(es).0;
    assert forall|a: int, b: int| 0 <= a < b < plan.len() implies (#[trigger] plan[a]).1 != (#[trigger] plan[b]).1 by {
        let ia = src[a];
        let ib = src[b];
        assert(ia < ib);
        if ws[ia] == ws[ib] {
            lemma_count_two(ws, ia, ib);
        }
    }
    assert forall|a: int, i: int|
        0 <= a < plan.len() && 0 <= i < es.len() && (#[trigger] es[i]).slug@ == ws[i] implies (#[trigger] plan[a]).1
        != es[i].slug@ by {
        let ia = src[a];
        if ws[ia] == es[i].slug@ {
            assert(held_by_unmoved(es, ws, ws[ia]));
        }
    }
}

proof fn lemma_first_trim_vouched(slug: Seq<char>, tokens: Seq<Seq<char>>)
    ensures
        first_trim(slug, tokens) matches Some(h) ==> exists|t: Seq<char>|
            #[trigger] tokens.contains(t) && ends_with(slug, "-"@ + t) && h == slug.take(slug.len() - ("-"@ + t).len()),
    decreases tokens.len(),
{
    if tokens.len() > 0 {
        lemma_first_trim_vouched(slug, tokens.drop_first());
        match trim_token(slug, tokens[0]) {
            Some(h) => {
                assert(tokens.contains(tokens[0]));
            },
            None => {
                if first_trim(slug, tokens) is Some {
                    let t = choose|t: Seq<char>|
                        #[trigger] tokens.drop_first().contains(t) && ends_with(slug, "-"@ + t)
                            && first_trim(slug, tokens)->Some_0 == slug.take(slug.len() - ("-"@ + t).len());
                    let k = choose|k: int| 0 <= k < tokens.drop_first().len() && tokens.drop_first()[k] == t;
                    assert(tokens[k + 1] == t);
                    assert(tokens.contains(t));
                }
            },
        }
    }
}

/// Slug cleanup only strips what the hardware vouches for, and is done in
/// one pass: the wanted slug is a prefix of the slug, the last suffix it
/// dropped is `-token` for a token of the set, and nothing more can be
/// stripped from it, so cleaning it again leaves it as it is.
pub proof fn lemma_desired_vouched(slug: Seq<char>, tokens: Seq<Seq<char>>)
    ensures
        starts_with(slug, desired(slug, tokens)),
        desired(slug, tokens) != slug ==> exists|t: Seq<char>|
            #[trigger] tokens.contains(t) && ends_with(slug, "-"@ + t),
        first_trim(desired(slug, tokens), tokens) is None,
        desired(desired(slug, tokens), tokens) == desired(slug, tokens),
    decreases slug.len(),
{
    lemma_first_trim_shorter(slug, tokens);
    lemma_first_trim_vouched(slug, tokens);
    match first_trim(slug, tokens) {
        Some(h) => {
            lemma_desired_vouched(h, tokens);
            let d = desired(h, tokens);
            assert(desired(slug, tokens) == d);
            let t = choose|t: Seq<char>|
                #[trigger] tokens.contains(t) && ends_with(slug, "-"@ + t) && h == slug.take(slug.len() - ("-"@ + t).len());
            assert(slug.take(d.len() as int) =~= h.take(d.len() as int));
            if d == slug {
                assert(d.len() <= h.len());
            }
        },
        None => {
            assert(slug.take(slug.len() as int) == slug);
        },
    }
}

} // verus!
