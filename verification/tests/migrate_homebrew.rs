use missingno_gamedb::legacy::{LegacyManifest, LegacySource};
use missingno_gamedb::migrate_homebrew::{GBDEV_ENTRIES, homebrew_links, hub_images, migrated_game};
use missingno_gamedb::{GameBoy, GameKind, GbHardware, Link, LinkType, Region, Report, ReleaseStatus};

fn link(name: &str, url: &str, link_type: LinkType) -> Link {
    Link { name: name.to_owned(), url: url.to_owned(), link_type, languages: vec![] }
}

fn strings(items: &[&str]) -> Vec<String> {
    items.iter().map(|s| s.to_string()).collect()
}

#[test]
fn hub_screenshots_become_urls_with_the_cover_first() {
    let (covers, shots) = hub_images("tobu", &strings(&["a.png", "cover.png", "b.png"]));
    assert_eq!(covers, vec![format!("{GBDEV_ENTRIES}/tobu/cover.png")]);
    assert_eq!(shots, vec![format!("{GBDEV_ENTRIES}/tobu/a.png"), format!("{GBDEV_ENTRIES}/tobu/b.png")]);

    let (covers, shots) = hub_images("tobu", &strings(&["x.png", "y.png"]));
    assert_eq!(covers, vec![format!("{GBDEV_ENTRIES}/tobu/x.png")]);
    assert_eq!(shots.len(), 2);

    let (covers, shots) = hub_images("tobu", &vec![]);
    assert!(covers.is_empty() && shots.is_empty());
}

#[test]
fn where_a_dump_came_from_becomes_download_links() {
    let links = vec![
        link("Page", "https://someone.itch.io/game", LinkType::Store),
        link("Source", "https://github.com/someone/game", LinkType::Source),
    ];
    let hub = LegacySource::HomebrewHub { slug: "game".to_owned(), filename: "game.gb".to_owned() };
    assert_eq!(
        homebrew_links(&links, &hub),
        vec![
            link("Source", "https://github.com/someone/game", LinkType::Source),
            link("Homebrew Hub ROM", &format!("{GBDEV_ENTRIES}/game/game.gb"), LinkType::Download),
            link("Homebrew Hub", "https://hh.gbdev.io/games/game", LinkType::DownloadPage),
            link("itch.io", "https://someone.itch.io/game", LinkType::DownloadPage),
        ]
    );
    let url = LegacySource::Url("https://example.org/game.gb".to_owned());
    assert_eq!(
        homebrew_links(&vec![], &url),
        vec![link("Download", "https://example.org/game.gb", LinkType::Download)]
    );
}

fn manifest(source: Option<LegacySource>) -> LegacyManifest {
    LegacyManifest {
        title: "Tobu Tobu Girl".to_owned(),
        date: Some("2017-05".to_owned()),
        region: Some("Europe, USA".to_owned()),
        developer: Some("Tangram Games".to_owned()),
        publisher: None,
        description: None,
        tv_format: None,
        cart_type: None,
        hashes: vec!["ABCDEF0123456789ABCDEF0123456789ABCDEF01".to_owned(), "nope".to_owned()],
        source,
        tags: strings(&["platformer"]),
        screenshots: strings(&["cover.png"]),
        links: vec![],
    }
}

fn plain() -> GbHardware {
    GbHardware { features: vec![], cart_type: None }
}

#[test]
fn a_commercial_entry_is_left_to_the_dat_import() {
    let mut report = Report::new();
    assert!(migrated_game::<GameBoy>("gb/tobu", &manifest(None), plain(), &mut report).is_none());
    assert_eq!(report.item_count(), 0);
}

#[test]
fn a_homebrew_entry_moves_to_the_current_schema() {
    let mut report = Report::new();
    let source = LegacySource::HomebrewHub { slug: "tobu".to_owned(), filename: "tobu.gb".to_owned() };
    let game = migrated_game::<GameBoy>("gb/tobu", &manifest(Some(source)), plain(), &mut report).unwrap();
    assert_eq!(game.title, "Tobu Tobu Girl");
    assert_eq!(game.kind, GameKind::Game);
    assert_eq!(game.developer.as_deref(), Some("Tangram Games"));
    assert_eq!(game.tags, strings(&["platformer"]));
    assert_eq!(game.covers, vec![format!("{GBDEV_ENTRIES}/tobu/cover.png")]);
    assert!(game.screenshots.is_empty());
    assert_eq!(game.links.len(), 2);
    assert!(!game.curated && !game.adult);
    let release = &game.releases[0];
    assert_eq!(game.releases.len(), 1);
    assert_eq!(release.regions, vec![Region::Europe, Region::Usa]);
    assert_eq!(release.date.as_ref().map(|d| d.as_str().to_owned()), Some("2017-05".to_owned()));
    assert_eq!(release.status, ReleaseStatus::Released);
    assert_eq!(release.artifacts.len(), 1);
    assert_eq!(release.artifacts[0].sha1.as_str(), "abcdef0123456789abcdef0123456789abcdef01");
    assert_eq!(report.item_count(), 1);
    assert!(report.render("m").contains("gb/tobu: not a 40-digit hex sha1: \"nope\""));
}

#[test]
fn what_does_not_read_is_reported() {
    let mut report = Report::new();
    let mut m = manifest(Some(LegacySource::Url("https://example.org/t.gb".to_owned())));
    m.region = Some("Europe, Atlantis".to_owned());
    m.date = Some("someday".to_owned());
    m.hashes = vec![];
    let game = migrated_game::<GameBoy>("gb/tobu", &m, plain(), &mut report).unwrap();
    assert!(game.covers.is_empty() && game.screenshots.is_empty());
    assert!(game.releases[0].regions.is_empty());
    assert!(game.releases[0].date.is_none());
    assert!(game.releases[0].artifacts.is_empty());
    assert_eq!(report.item_count(), 3);
    let text = report.render("m");
    assert!(text.contains("Screenshot filenames dropped (no URL derivable)"));
    assert!(text.contains("gb/tobu: [\"Atlantis\"]"));
    assert!(text.contains("Unparseable dates dropped"));
}

#[test]
fn homebrew_entry_gains_urls_and_links() {
    let m = LegacyManifest {
        title: "144p Test Suite".to_owned(),
        date: Some("2018-04-17".to_owned()),
        region: None,
        developer: Some("Damian Yerrick".to_owned()),
        publisher: None,
        description: None,
        tv_format: None,
        cart_type: None,
        hashes: vec![],
        source: Some(LegacySource::HomebrewHub {
            slug: "144p-test-suite".to_owned(),
            filename: "gb240p.gb".to_owned(),
        }),
        tags: strings(&["Open Source"]),
        screenshots: strings(&["cover.png", "a.png"]),
        links: vec![
            link("Website", "https://pinobatch.itch.io/240p-test-suite", LinkType::Wiki),
            link("Source Code", "https://github.com/pinobatch/240p-test-mini", LinkType::Source),
        ],
    };
    let mut report = Report::new();
    let game = migrated_game::<GameBoy>("gb/144p-test-suite", &m, plain(), &mut report).unwrap();
    assert_eq!(game.covers, vec![format!("{GBDEV_ENTRIES}/144p-test-suite/cover.png")]);
    assert_eq!(game.screenshots, vec![format!("{GBDEV_ENTRIES}/144p-test-suite/a.png")]);
    let urls: Vec<&str> = game.links.iter().map(|l| l.url.as_str()).collect();
    assert!(urls.contains(&"https://raw.githubusercontent.com/gbdev/database/master/entries/144p-test-suite/gb240p.gb"));
    assert!(urls.contains(&"https://hh.gbdev.io/games/144p-test-suite"));
    assert!(urls.contains(&"https://pinobatch.itch.io/240p-test-suite"), "itch page kept as a DownloadPage link");
    let itch = game.links.iter().find(|l| l.url.contains(".itch.io/")).unwrap();
    assert_eq!(itch.link_type, LinkType::DownloadPage);
    assert_eq!(game.releases[0].date.as_ref().map(|d| d.as_str().to_owned()), Some("2018-04-17".to_owned()));
    assert_eq!(report.item_count(), 0);
}
