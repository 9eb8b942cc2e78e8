use missingno_gamedb::{
    Artifact, BoardValue, Game, GameBoy, GameKind, GbHardware, ManifestFile, ModCategory, ModOf,
    Patch, PatchFormat, Release, ReleaseStatus, Severity, Sg1000, Sha1, TvStandard, Vcs, VcsHardware,
    validate, validate_tree,
};

fn sha1(text: &str) -> Sha1 {
    text.parse().expect("fixture sha1")
}

fn artifact(text: &str) -> Artifact {
    Artifact { sha1: sha1(text), label: None, defect: None, size: None }
}

fn gb_release(artifacts: Vec<Artifact>) -> Release<GameBoy> {
    Release {
        title: None,
        label: None,
        regions: vec![],
        date: None,
        publisher: None,
        status: ReleaseStatus::Released,
        hardware: GbHardware { features: vec![], cart_type: None },
        artifacts,
    }
}

fn game<P: missingno_gamedb::Platform>(title: &str, releases: Vec<Release<P>>) -> Game<P> {
    Game {
        title: title.to_owned(),
        kind: GameKind::Game,
        developer: None,
        description: None,
        tags: vec![],
        links: vec![],
        covers: vec![],
        screenshots: vec![],
        mod_of: None,
        mods: vec![],
        curated: false,
        adult: false,
        recommended_by: vec![],
        releases,
    }
}

/// A manifest as the caller reads it when its text is already canonical.
fn canonical<P: missingno_gamedb::Platform>(tree: &str, slug: &str, game: Game<P>) -> ManifestFile<P> {
    let text = format!("(title: {:?})\n", game.title);
    ManifestFile {
        path: format!("{tree}/{slug}/manifest.ron"),
        dir_name: slug.to_owned(),
        text: text.clone(),
        parsed: Ok((game, Ok(text))),
    }
}

fn good_game() -> Game<GameBoy> {
    game("Good Game", vec![gb_release(vec![artifact("0123456789abcdef0123456789abcdef01234567")])])
}

#[test]
fn clean_tree_validates() {
    let combat = game::<Vcs>(
        "Combat",
        vec![Release {
            title: None,
            label: None,
            regions: vec![],
            date: None,
            publisher: None,
            status: ReleaseStatus::Released,
            hardware: VcsHardware {
                tv_format: Some(TvStandard::Ntsc),
                cart_type: Some(BoardValue { name: "2K".to_owned(), attributes: vec![] }),
                controllers: vec![],
            },
            artifacts: vec![artifact("fedcba9876543210fedcba9876543210fedcba98")],
        }],
    );
    let findings = validate(
        vec![canonical("gb", "good-game", good_game())],
        vec![],
        vec![],
        vec![canonical("vcs", "combat", combat)],
    );
    assert!(findings.is_empty(), "{findings:?}");
}

#[test]
fn format_drift_is_an_error() {
    let file = ManifestFile {
        path: "gb/drifted/manifest.ron".to_owned(),
        dir_name: "drifted".to_owned(),
        text: "(title: \"Good Game\", releases: [(artifacts: [(sha1: \"0123456789abcdef0123456789abcdef01234567\")])])".to_owned(),
        parsed: Ok((good_game(), Ok("(\n    title: \"Good Game\",\n)\n".to_owned()))),
    };
    let findings = validate(vec![file], vec![], vec![], vec![]);
    assert!(
        findings
            .iter()
            .any(|f| f.severity == Severity::Error && f.message.contains("canonically")),
        "{findings:?}"
    );
}

#[test]
fn game_without_releases_is_an_error() {
    let findings = validate(vec![canonical("gb", "empty-game", game::<GameBoy>("Empty", vec![]))], vec![], vec![], vec![]);
    assert!(findings.iter().any(|f| f.message.contains("no releases")), "{findings:?}");
}

#[test]
fn unlocatable_unverifiable_release_is_an_error() {
    let ghost = game("Ghost", vec![gb_release(vec![])]);
    let findings = validate(vec![canonical("gb", "ghost", ghost)], vec![], vec![], vec![]);
    assert!(findings.iter().any(|f| f.message.contains("no artifacts")), "{findings:?}");
}

#[test]
fn duplicate_sha1_is_an_error() {
    let second = game("Second Game", vec![gb_release(vec![artifact("0123456789abcdef0123456789abcdef01234567")])]);
    let findings = validate(
        vec![canonical("gb", "first", good_game()), canonical("gb", "second", second)],
        vec![],
        vec![],
        vec![],
    );
    assert!(
        findings
            .iter()
            .any(|f| f.severity == Severity::Error && f.message.contains("duplicate sha1")),
        "{findings:?}"
    );
}

#[test]
fn unresolved_mod_base_is_a_warning() {
    let mut orphan = game("Orphan Mod", vec![gb_release(vec![artifact("cccccccccccccccccccccccccccccccccccccccc")])]);
    orphan.mod_of = Some(ModOf {
        base_sha1: sha1("fedcba9876543210fedcba9876543210fedcba98"),
        category: ModCategory::Translation,
        patch: Some(Patch { format: PatchFormat::Ips, sha1: sha1("0123456789abcdef0123456789abcdef01234567") }),
    });
    let findings = validate(vec![canonical("gb", "orphan-mod", orphan)], vec![], vec![], vec![]);
    assert!(
        findings
            .iter()
            .any(|f| f.severity == Severity::Warning && f.message.contains("mod base sha1")),
        "{findings:?}"
    );
}

#[test]
fn invalid_slug_is_an_error() {
    let file: ManifestFile<GameBoy> = ManifestFile {
        path: "gb/Bad Slug/manifest.ron".to_owned(),
        dir_name: "Bad Slug".to_owned(),
        text: "garbage".to_owned(),
        parsed: Err("1:1: Expected opening `(`".to_owned()),
    };
    let findings = validate(vec![file], vec![], vec![], vec![]);
    assert!(findings.iter().any(|f| f.message.contains("invalid slug")), "{findings:?}");
    assert!(findings.iter().any(|f| f.message.contains("parse error")), "{findings:?}");
}

#[test]
fn duplicate_names_the_first_holder_and_findings_keep_file_order() {
    let second = game("Second Game", vec![gb_release(vec![artifact("0123456789abcdef0123456789abcdef01234567")])]);
    let findings = validate_tree(vec![canonical("gb", "first", good_game()), canonical("gb", "second", second)]);
    assert_eq!(findings.len(), 1);
    assert_eq!(findings[0].path, "gb/second/manifest.ron");
    assert_eq!(
        findings[0].message,
        "duplicate sha1 0123456789abcdef0123456789abcdef01234567 (also in gb/first/manifest.ron)"
    );
}

#[test]
fn resolved_mod_base_is_quiet() {
    let mut hack = game("Hack", vec![gb_release(vec![artifact("cccccccccccccccccccccccccccccccccccccccc")])]);
    hack.mod_of = Some(ModOf {
        base_sha1: sha1("0123456789abcdef0123456789abcdef01234567"),
        category: ModCategory::ContentChange,
        patch: None,
    });
    let findings = validate_tree(vec![canonical("gb", "good-game", good_game()), canonical("gb", "hack", hack)]);
    assert!(findings.is_empty(), "{findings:?}");
}

#[test]
fn an_unparseable_sg1000_manifest_is_an_error() {
    let broken: ManifestFile<Sg1000> = ManifestFile {
        path: "sg1000/broken/manifest.ron".to_owned(),
        dir_name: "broken".to_owned(),
        text: "garbage".to_owned(),
        parsed: Err("1:1: Expected opening `(`".to_owned()),
    };
    let findings = validate(vec![], vec![], vec![broken], vec![]);
    assert_eq!(findings.len(), 1);
    assert_eq!(findings[0].severity, Severity::Error);
    assert!(findings[0].message.starts_with("parse error"));
    assert!(findings[0].path.ends_with("sg1000/broken/manifest.ron"));
}
