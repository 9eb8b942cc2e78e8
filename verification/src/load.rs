//! Loading a platform tree: every manifest either becomes an entry filed
//! under its slug, or an issue naming why it could not — loading goes on
//! past a bad file.
use vstd::prelude::*;

use crate::game::Game;
use crate::fix_slugs::lex_lt;
use crate::ids::{Slug, is_slug_text, slug_error};
use crate::platform::{GameBoy, GameBoyColor, Platform, Vcs};

verus! {

/// A loaded game with the slug it is filed under.
pub struct Entry<P: Platform> {
    pub slug: Slug,
    pub game: Game<P>,
}

/// One platform's tree of games.
pub struct Tree<P: Platform> {
    pub games: Vec<Entry<P>>,
}

/// A file that could not be loaded; loading continues past it.
#[derive(Clone, Debug)]
pub struct LoadIssue {
    pub path: String,
    pub message: String,
}

impl View for LoadIssue {
    type V = (Seq<char>, Seq<char>);

    open spec fn view(&self) -> (Seq<char>, Seq<char>) {
        (self.path@, self.message@)
    }
}

/// A manifest as the caller found it: its directory name, its path, and
/// either the read error or what parsing its text gave.
pub struct LoadFile<P: Platform> {
    pub name: String,
    pub path: String,
    pub content: Result<Result<Game<P>, String>, String>,
}

pub open spec fn issue_views(v: Seq<LoadIssue>) -> Seq<(Seq<char>, Seq<char>)> {
    v.map_values(|i: LoadIssue| i@)
}

/// The games a tree loads (directory name and game) and the issues it
/// reports, in file order: a bad directory name is reported before the file
/// is read, then a read error, then a parse error.
pub open spec fn loaded<P: Platform>(fs: Seq<LoadFile<P>>) -> (
    Seq<(Seq<char>, Game<P>)>,
    Seq<(Seq<char>, Seq<char>)>,
)
    decreases fs.len(),
{
    if fs.len() == 0 {
        (Seq::empty(), Seq::empty())
    } else {
        let (games, issues) = loaded(fs.drop_last());
        let f = fs.last();
        if !is_slug_text(f.name@) {
            (games, issues.push((f.path@, slug_error(f.name@))))
        } else {
            match f.content {
                Err(e) => (games, issues.push((f.path@, e@))),
                Ok(Err(e)) => (games, issues.push((f.path@, e@))),
                Ok(Ok(g)) => (games.push((f.name@, g)), issues),
            }
        }
    }
}

/// The files come in the order a sorted directory listing gives: strictly
/// increasing by directory name.
pub open spec fn names_sorted<P: Platform>(fs: Seq<LoadFile<P>>) -> bool {
    forall|i: int, j: int| 0 <= i < j < fs.len() ==> lex_lt(#[trigger] fs[i].name@, #[trigger] fs[j].name@)
}

/// Games filed under slugs in strictly increasing order.
pub open spec fn slugs_sorted<P: Platform>(gs: Seq<(Seq<char>, Game<P>)>) -> bool {
    forall|i: int, j: int| 0 <= i < j < gs.len() ==> lex_lt(#[trigger] gs[i].0, #[trigger] gs[j].0)
}

/// A tree loaded from sorted files holds its games sorted by slug, each under
/// the name of one of the files.
proof fn lemma_loaded_sorted<P: Platform>(fs: Seq<LoadFile<P>>)
    requires
        names_sorted(fs),
    ensures
        slugs_sorted(loaded(fs).0),
        forall|g: int|
            0 <= g < loaded(fs).0.len() ==> exists|k: int|
                0 <= k < fs.len() && #[trigger] loaded(fs).0[g].0 == fs[k].name@,
    decreases fs.len(),
{
    if fs.len() > 0 {
        let pre = fs.drop_last();
        assert(names_sorted(pre)) by {
            assert forall|i: int, j: int| 0 <= i < j < pre.len() implies lex_lt(#[trigger] pre[i].name@, #[trigger] pre[j].name@) by {
                assert(pre[i] == fs[i] && pre[j] == fs[j]);
            }
        }
        lemma_loaded_sorted(pre);
        let gs0 = loaded(pre).0;
        let gs = loaded(fs).0;
        let f = fs.last();
        assert forall|g: int| 0 <= g < gs0.len() implies lex_lt(#[trigger] gs0[g].0, f.name@) by {
            let k = choose|k: int| 0 <= k < pre.len() && gs0[g].0 == pre[k].name@;
            assert(pre[k] == fs[k]);
            assert(lex_lt(fs[k].name@, fs[fs.len() - 1].name@));
        }
        assert forall|g: int| 0 <= g < gs.len() implies exists|k: int|
            0 <= k < fs.len() && #[trigger] gs[g].0 == fs[k].name@ by {
            if g < gs0.len() {
                assert(gs[g] == gs0[g]);
                let k = choose|k: int| 0 <= k < pre.len() && gs0[g].0 == pre[k].name@;
                assert(pre[k] == fs[k]);
            } else {
                assert(gs[g].0 == fs[fs.len() - 1].name@);
            }
        }
        assert forall|i: int, j: int| 0 <= i < j < gs.len() implies lex_lt(#[trigger] gs[i].0, #[trigger] gs[j].0) by {
            if j < gs0.len() {
                assert(gs[i] == gs0[i] && gs[j] == gs0[j]);
            } else {
                assert(gs[i] == gs0[i]);
                assert(gs[j].0 == f.name@);
            }
        }
    }
}

pub open spec fn entry_views<P: Platform>(v: Seq<Entry<P>>) -> Seq<(Seq<char>, Game<P>)> {
    v.map_values(|e: Entry<P>| (e.slug@, e.game))
}

impl<P: Platform> Tree<P> {
    /// Files every manifest that has a valid slug and parses; reports the
    /// rest. The files come as a sorted directory listing gives them, so the
    /// games come out sorted by slug.
    pub fn load(files: Vec<LoadFile<P>>) -> (r: (Tree<P>, Vec<LoadIssue>))
        requires
            names_sorted(files@),
        ensures
            entry_views(r.0.games@) == loaded(files@).0,
            issue_views(r.1@) == loaded(files@).1,
            slugs_sorted(entry_views(r.0.games@)),
    {
        proof {
            lemma_loaded_sorted(files@);
        }
        let ghost all = files@;
        let mut games: Vec<Entry<P>> = Vec::new();
        let mut issues: Vec<LoadIssue> = Vec::new();
        let mut rest = files;
        assert(rest@ =~= all.skip(0));
        assert(all.take(0) =~= Seq::<LoadFile<P>>::empty());
        assert(entry_views(games@) =~= Seq::<(Seq<char>, Game<P>)>::empty());
        assert(issue_views(issues@) =~= Seq::<(Seq<char>, Seq<char>)>::empty());
        while rest.len() > 0
            invariant
                rest@.len() <= all.len(),
                rest@ == all.skip(all.len() - rest@.len()),
                entry_views(games@) == loaded(all.take(all.len() - rest@.len())).0,
                issue_views(issues@) == loaded(all.take(all.len() - rest@.len())).1,
            decreases rest@.len(),
        {
            let ghost n = all.len() - rest@.len();
            let f = rest.remove(0);
            proof {
                assert(f == all[n]);
                assert(all.take(n + 1).drop_last() == all.take(n));
                assert(all.take(n + 1).last() == f);
                assert(rest@ =~= all.skip(n + 1));
            }
            let ghost gb = games@;
            let ghost ib = issues@;
            let LoadFile { name, path, content } = f;
            match Slug::parse(name.as_str()) {
                Err(message) => {
                    let issue = LoadIssue { path, message };
                    issues.push(issue);
                    assert(issue_views(issues@) =~= issue_views(ib).push(issue@));
                },
                Ok(slug) => match content {
                    Err(message) => {
                        let issue = LoadIssue { path, message };
                        issues.push(issue);
                        assert(issue_views(issues@) =~= issue_views(ib).push(issue@));
                    },
                    Ok(Err(message)) => {
                        let issue = LoadIssue { path, message };
                        issues.push(issue);
                        assert(issue_views(issues@) =~= issue_views(ib).push(issue@));
                    },
                    Ok(Ok(game)) => {
                        let entry = Entry { slug, game };
                        games.push(entry);
                        assert(entry_views(games@) =~= entry_views(gb).push((f.name@, f.content->Ok_0->Ok_0)));
                    },
                },
            }
        }
        assert(all.take(all.len() as int) == all);
        (Tree { games }, issues)
    }
}

/// All three platform trees.
pub struct Database {
    pub gb: Tree<GameBoy>,
    pub gbc: Tree<GameBoyColor>,
    pub vcs: Tree<Vcs>,
}

impl Database {
    /// Loads the three trees; their issues come back in tree order.
    pub fn load(
        gb: Vec<LoadFile<GameBoy>>,
        gbc: Vec<LoadFile<GameBoyColor>>,
        vcs: Vec<LoadFile<Vcs>>,
    ) -> (r: (Database, Vec<LoadIssue>))
        requires
            names_sorted(gb@),
            names_sorted(gbc@),
            names_sorted(vcs@),
        ensures
            entry_views(r.0.gb.games@) == loaded(gb@).0,
            entry_views(r.0.gbc.games@) == loaded(gbc@).0,
            entry_views(r.0.vcs.games@) == loaded(vcs@).0,
            issue_views(r.1@) == loaded(gb@).1 + loaded(gbc@).1 + loaded(vcs@).1,
    {
        let (gb, mut issues) = Tree::load(gb);
        let ghost a = issues@;
        let (gbc, mut gbc_issues) = Tree::load(gbc);
        let ghost b = gbc_issues@;
        let (vcs, mut vcs_issues) = Tree::load(vcs);
        let ghost c = vcs_issues@;
        issues.append(&mut gbc_issues);
        issues.append(&mut vcs_issues);
        assert(issues@ == a + b + c);
        assert(issue_views(issues@) =~= issue_views(a) + issue_views(b) + issue_views(c));
        (Database { gb, gbc, vcs }, issues)
    }
}

} // verus!
