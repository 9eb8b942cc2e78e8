use missingno_gamedb::legacy::LegacyManifest;
use missingno_gamedb::migrate_vcs::collapse_variants;
use missingno_gamedb::{ReleaseStatus, TvStandard};

fn legacy(title: &str, publisher: Option<&str>, tv: TvStandard, cart: Option<&str>, hash: &str) -> LegacyManifest {
    LegacyManifest {
        title: title.to_owned(),
        date: None,
        region: None,
        developer: None,
        publisher: publisher.map(str::to_owned),
        description: None,
        tv_format: Some(tv),
        cart_type: cart.map(str::to_owned),
        hashes: vec![hash.to_owned()],
        source: None,
        tags: vec![],
        screenshots: vec![],
        links: vec![],
    }
}

#[test]
fn collapses_variants_and_reports_near_misses() {
    let entries = vec![
        ("other".to_owned(), legacy("Other", None, TvStandard::Ntsc, None, "0123456789abcdef0123456789abcdef01234567")),
        (
            "other-wip".to_owned(),
            legacy("Other (WIP)", None, TvStandard::Pal, None, "fedcba9876543210fedcba9876543210fedcba98"),
        ),
        (
            "pitfall-ii".to_owned(),
            legacy("Pitfall II", Some("Activision"), TvStandard::Ntsc, Some("F8"), "920cfbd517764ad3fa6a7425c031bd72dc7d927c"),
        ),
        (
            "pitfall-ii-pal".to_owned(),
            legacy("Pitfall II", Some("Activision"), TvStandard::Pal, Some("F8"), "3ee18a1be7155900c2a01a104563657254d3a9a9"),
        ),
        (
            "star-fire".to_owned(),
            legacy("Star Fire", None, TvStandard::Ntsc, None, "1111111111111111111111111111111111111111"),
        ),
        ("starfire".to_owned(), legacy("Star-Fire", None, TvStandard::Pal, None, "2222222222222222222222222222222222222222")),
    ];
    let (games, stats, notes) = collapse_variants(&entries);
    assert_eq!(stats.entries_before, 6);
    assert_eq!(stats.games_after, 4);
    assert_eq!(stats.releases, 6);
    assert_eq!(games.iter().map(|(_, g)| g.releases.len()).sum::<usize>(), 6);

    let (slug, game) = games.iter().find(|(_, g)| g.title == "Pitfall II").unwrap();
    assert_eq!(slug, "pitfall-ii");
    assert_eq!(game.releases.len(), 2);
    assert_eq!(game.releases[0].publisher.as_deref(), Some("Activision"));
    assert_eq!(game.releases[0].hardware.tv_format, Some(TvStandard::Ntsc));

    let (slug, other) = games.iter().find(|(_, g)| g.title == "Other").unwrap();
    assert_eq!(slug, "other");
    assert_eq!(other.releases.len(), 2);
    assert_eq!(other.releases[0].status, ReleaseStatus::Released);
    assert_eq!(other.releases[1].status, ReleaseStatus::WorkInProgress);

    assert!(notes.iter().any(|(section, item)| section == "Near-miss titles left unmerged" && item.contains("Star Fire")));
    let titles: Vec<&str> = games.iter().map(|(_, g)| g.title.as_str()).collect();
    assert_eq!(titles, vec!["Other", "Pitfall II", "Star Fire", "Star-Fire"]);
}

#[test]
fn variants_that_disagree_or_repeat_hardware_are_reported() {
    let mut a = legacy("Combat", None, TvStandard::Ntsc, Some("2K"), "1111111111111111111111111111111111111111");
    a.developer = Some("Atari".to_owned());
    a.tags = vec!["tank".to_owned(), "arcade".to_owned()];
    a.screenshots = vec!["shot.png".to_owned()];
    let mut b = legacy("Combat", None, TvStandard::Ntsc, Some("2K"), "nope");
    b.developer = Some("Coleco".to_owned());
    b.tags = vec!["arcade".to_owned()];
    b.date = Some("1977-13".to_owned());
    let (games, _, notes) = collapse_variants(&vec![("combat".to_owned(), a), ("combat-2".to_owned(), b)]);
    let game = &games[0].1;
    assert_eq!(games[0].0, "combat");
    assert_eq!(game.developer, None);
    assert_eq!(game.tags, vec!["arcade".to_owned(), "tank".to_owned()]);
    assert!(game.releases[1].artifacts.is_empty());
    let sections: Vec<&str> = notes.iter().map(|(s, _)| s.as_str()).collect();
    assert_eq!(
        sections,
        vec![
            "Same title with identical hardware",
            "Unparseable dates dropped",
            "Invalid hashes dropped",
            "Releases with no artifacts and no sources",
            "Conflicting game fields left empty",
            "Screenshot filenames dropped (no URL derivable)",
        ]
    );
    assert_eq!(notes[0].1, "\"Combat\": combat and combat-2");
    assert_eq!(notes[4].1, "\"Combat\": developer differs across variants");
}
