use missingno_gamedb::fix_slugs::{SlugTokens, Stats, desired_slug, fix_tree, token_set_of};
use missingno_gamedb::{
    BoardValue, Entry, Flag, FlagFile, FlagKind, Game, GameKind, Release, ReleaseStatus, Report, Slug, Tree,
    TvStandard, Vcs, VcsHardware,
};

fn release(tv: Option<TvStandard>, board: Option<&str>) -> Release<Vcs> {
    Release {
        title: None,
        label: None,
        regions: vec![],
        date: None,
        publisher: None,
        status: ReleaseStatus::Released,
        hardware: VcsHardware {
            tv_format: tv,
            cart_type: board.map(|b| BoardValue { name: b.to_owned(), attributes: vec![] }),
            controllers: vec![],
        },
        artifacts: vec![],
    }
}

fn game(title: &str, releases: Vec<Release<Vcs>>) -> Game<Vcs> {
    Game {
        title: title.to_owned(),
        kind: GameKind::Game,
        developer: None,
        description: None,
        tags: vec![],
        links: vec![],
        covers: vec![],
        screenshots: vec![],
        mod_of: None,
        mods: vec![],
        curated: false,
        adult: false,
        recommended_by: vec![],
        releases,
    }
}

fn entry(slug: &str, game: Game<Vcs>) -> Entry<Vcs> {
    Entry { slug: Slug::parse(slug).unwrap(), game }
}

fn strings(v: &[&str]) -> Vec<String> {
    v.iter().map(|s| s.to_string()).collect()
}

#[test]
fn only_vouched_suffixes_are_stripped() {
    let tokens = strings(&["f6sc", "pal"]);
    assert_eq!(desired_slug("pitfall-pal-f6sc", &tokens), "pitfall");
    assert_eq!(desired_slug("pitfall-ntsc", &tokens), "pitfall-ntsc");
    assert_eq!(desired_slug("pal", &tokens), "pal");
    assert_eq!(desired_slug("-pal", &tokens), "-pal");
    assert_eq!(desired_slug("a-pal", &tokens), "a");
}

#[test]
fn tokens_are_the_hardware_words_as_a_sorted_set() {
    let g = game(
        "Pitfall",
        vec![release(Some(TvStandard::PalM), Some("F6SC")), release(Some(TvStandard::Ntsc), None), release(Some(TvStandard::PalM), None)],
    );
    let raw = Vcs::tokens(&g);
    assert_eq!(raw, strings(&["palm", "f6sc", "ntsc", "palm"]));
    assert_eq!(token_set_of(&raw), strings(&["f6sc", "ntsc", "palm"]));
}

#[test]
fn contested_moves_are_kept_and_flags_follow_renames() {
    let tree = Tree {
        games: vec![
            entry("combat-pal", game("Combat", vec![release(Some(TvStandard::Pal), None)])),
            entry("outlaw", game("Outlaw", vec![release(Some(TvStandard::Pal), None)])),
            entry("outlaw-pal", game("Outlaw", vec![release(Some(TvStandard::Pal), None)])),
            entry("tank-ntsc", game("Tank", vec![release(Some(TvStandard::Ntsc), None)])),
            entry("tank-pal", game("Tank", vec![release(Some(TvStandard::Pal), None)])),
        ],
    };
    let mut report = Report::new();
    let mut stats = Stats { renamed: 0, collisions: 0, subjects: 0 };
    let mut flags = FlagFile {
        flags: vec![Flag {
            id: 1,
            kind: FlagKind::Custom,
            subject: strings(&["vcs/combat-pal", "gb/combat-pal", "vcs/tank-pal"]),
            note: "check".to_owned(),
        }],
    };
    let renames = fix_tree(&tree, &mut report, &mut stats, &mut flags);
    assert_eq!(renames, vec![("combat-pal".to_owned(), "combat".to_owned())]);
    assert_eq!((stats.renamed, stats.collisions, stats.subjects), (1, 3, 1));
    assert_eq!(flags.flags[0].subject, strings(&["vcs/combat", "gb/combat-pal", "vcs/tank-pal"]));
    assert_eq!(
        report.render("r"),
        "# r\n\n## Slug kept: bare slug is contested (3)\n\n\
         - vcs/outlaw-pal → vcs/outlaw: \"Outlaw\"\n\
         - vcs/tank-ntsc → vcs/tank: \"Tank\"\n\
         - vcs/tank-pal → vcs/tank: \"Tank\"\n\
         \n## Renamed (1)\n\n- vcs/combat-pal → vcs/combat: \"Combat\"\n"
    );
}

#[test]
fn a_cleaned_slug_is_clean() {
    let tokens = strings(&["f6sc", "ntsc", "pal"]);
    for slug in ["pitfall-pal-f6sc", "river-raid-ntsc", "pal-pal", "combat"] {
        let once = desired_slug(slug, &tokens);
        assert_eq!(desired_slug(&once, &tokens), once);
        assert!(slug.starts_with(&once));
    }
}
