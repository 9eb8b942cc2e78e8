use missingno_gamedb::fix_titles::{Stats, TitleQualifier, clean_game, fix_tree, strip_qualifiers};
use missingno_gamedb::{
    Entry, FlagFile, FlagKind, Game, GameBoy, GameKind, GbHardware, Release, ReleaseStatus, Report, Slug, Tree,
};

fn release(status: ReleaseStatus) -> Release<GameBoy> {
    Release {
        title: None,
        label: None,
        regions: vec![],
        date: None,
        publisher: None,
        status,
        hardware: GbHardware { features: vec![], cart_type: None },
        artifacts: vec![],
    }
}

fn game(title: &str, releases: Vec<Release<GameBoy>>) -> Game<GameBoy> {
    Game {
        title: title.to_owned(),
        kind: GameKind::Game,
        developer: None,
        description: None,
        tags: vec![],
        links: vec![],
        covers: vec![],
        screenshots: vec![],
        mod_of: None,
        mods: vec![],
        curated: false,
        adult: false,
        recommended_by: vec![],
        releases,
    }
}

fn entry(slug: &str, game: Game<GameBoy>) -> Entry<GameBoy> {
    Entry { slug: Slug::parse(slug).unwrap(), game }
}

#[test]
fn qualifiers_come_off_outermost_first() {
    let (title, quals) = strip_qualifiers("Space Game (Beta 2) (Demo)  (PD)");
    assert_eq!(title, "Space Game");
    let kinds: Vec<TitleQualifier> = quals.iter().map(|q| q.0).collect();
    assert_eq!(
        kinds,
        vec![TitleQualifier::PublicDomain, TitleQualifier::Demo, TitleQualifier::Status(ReleaseStatus::Beta)]
    );
    let base: String = quals[1].1.iter().collect();
    assert_eq!(base, "Space Game (Beta 2)");
}

#[test]
fn an_unknown_chunk_stops_the_cleanup() {
    let (title, quals) = strip_qualifiers("Tetris (Hack) (WIP)");
    assert_eq!(title, "Tetris (Hack)");
    assert_eq!(quals.len(), 1);
    let (title, quals) = strip_qualifiers("Plain Title");
    assert_eq!(title, "Plain Title");
    assert!(quals.is_empty());
    assert_eq!(strip_qualifiers("(Proto)").0, "(Proto)");
}

#[test]
fn a_cleaned_game_takes_its_status_kind_and_a_demo_flag() {
    let mut g = game(
        "Racer (Demo) (Prototype)",
        vec![release(ReleaseStatus::Released), release(ReleaseStatus::Beta)],
    );
    let mut flags = FlagFile { flags: vec![] };
    let mut stats = Stats::default();
    assert!(clean_game(&mut g, "gb/racer", &mut flags, &mut stats));
    assert_eq!(g.title, "Racer");
    assert_eq!(g.kind, GameKind::Demo);
    assert_eq!(g.releases[0].status, ReleaseStatus::Prototype);
    assert_eq!(g.releases[1].status, ReleaseStatus::Beta);
    assert_eq!((stats.statuses, stats.demo_flags, stats.cleaned), (1, 1, 0));
    assert_eq!(flags.flags.len(), 1);
    assert_eq!(flags.flags[0].id, 1);
    assert_eq!(flags.flags[0].kind, FlagKind::Custom);
    assert_eq!(flags.flags[0].subject, vec!["gb/racer".to_owned()]);
    assert_eq!(
        flags.flags[0].note,
        "\"Racer\" was titled \"(Demo)\" — kind set to Demo; verify it is not a demoscene production"
    );
}

#[test]
fn a_tree_cleanup_writes_changed_games_and_reports_collisions() {
    let tree = Tree {
        games: vec![
            entry("zelda", game("Zelda", vec![release(ReleaseStatus::Released)])),
            entry("zelda-wip", game("Zelda (WIP)", vec![release(ReleaseStatus::Released)])),
            entry("mario", game("Mario", vec![])),
        ],
    };
    let mut report = Report::new();
    let mut stats = Stats::default();
    let mut flags = FlagFile { flags: vec![] };
    let writes = fix_tree(tree, &mut report, &mut stats, &mut flags);
    assert_eq!(writes.len(), 1);
    assert_eq!(writes[0].0, "zelda-wip");
    assert_eq!(writes[0].1.title, "Zelda");
    assert_eq!(writes[0].1.releases[0].status, ReleaseStatus::WorkInProgress);
    assert_eq!((stats.cleaned, stats.statuses, stats.demo_flags), (1, 1, 0));
    assert!(flags.flags.is_empty());
    assert_eq!(report.item_count(), 1);
    assert_eq!(
        report.render("t"),
        "# t\n\n## Cleaned title now collides (merge candidates) (1)\n\n- gb/zelda-wip: \"Zelda\"\n"
    );
}

#[test]
fn a_cleaned_title_is_clean() {
    for title in ["Racer (Demo) (Prototype)", "Zelda (WIP)", "Plain", "Game (Beta) (Hack) (PD)"] {
        let (clean, _) = strip_qualifiers(title);
        let (again, quals) = strip_qualifiers(&clean);
        assert_eq!(again, clean);
        assert!(quals.is_empty());
    }
}
