use missingno_gamedb::backfill_sg1000::{Stats, backfill_titles};
use missingno_gamedb::{Artifact, Game, GameKind, Release, ReleaseStatus, Report, Sg1000, Sg1000Hardware, Sha1};

fn dump(hash: &str) -> Artifact {
    Artifact { sha1: Sha1::parse(hash).unwrap(), label: None, defect: None, size: None }
}

fn release(title: Option<&str>, hashes: &[&str]) -> Release<Sg1000> {
    Release {
        title: title.map(str::to_owned),
        label: None,
        regions: vec![],
        date: None,
        publisher: None,
        status: ReleaseStatus::Released,
        hardware: Sg1000Hardware { tv_format: None, cart_type: None },
        artifacts: hashes.iter().map(|h| dump(h)).collect(),
    }
}

fn game(curated: bool, releases: Vec<Release<Sg1000>>) -> Game<Sg1000> {
    Game {
        title: "Champion Golf".to_owned(),
        kind: GameKind::Game,
        developer: None,
        description: None,
        tags: vec![],
        links: vec![],
        covers: vec![],
        screenshots: vec![],
        mod_of: None,
        mods: vec![],
        curated,
        adult: false,
        recommended_by: vec![],
        releases,
    }
}

const A: &str = "aaaaaaaaaaaaaaaaaaaaaaaaaaaaaaaaaaaaaaaa";
const B: &str = "bbbbbbbbbbbbbbbbbbbbbbbbbbbbbbbbbbbbbbbb";
const C: &str = "cccccccccccccccccccccccccccccccccccccccc";
const D: &str = "dddddddddddddddddddddddddddddddddddddddd";

fn titles() -> Vec<(String, String)> {
    vec![
        (B.to_owned(), "チャンピオンゴルフ".to_owned()),
        (C.to_owned(), "Champion Golf".to_owned()),
        (D.to_owned(), "ゴルフ".to_owned()),
    ]
}

#[test]
fn curated_releases_gain_native_titles_and_romanisations_are_reported() {
    let mut g = game(
        true,
        vec![release(None, &[A, B]), release(None, &[C]), release(Some("Golf"), &[D]), release(None, &[A])],
    );
    let mut report = Report::new();
    let mut stats = Stats { titled: 0, sized: 0, skipped_romanised: 0, skipped_no_dump: 0 };
    let changed = backfill_titles(&mut g, "champion-golf", &titles(), &mut report, &mut stats);
    assert!(changed);
    assert_eq!(g.releases[0].title.as_deref(), Some("チャンピオンゴルフ"));
    assert_eq!(g.releases[1].title, None);
    assert_eq!(g.releases[2].title.as_deref(), Some("Golf"));
    assert_eq!(g.releases[3].title, None);
    assert_eq!(stats.titled, 1);
    assert_eq!(stats.skipped_romanised, 1);
    assert_eq!(report.item_count(), 1);
    let rendered = report.render("backfill");
    assert!(rendered.contains("Softlist gives a romanisation, not native script"));
    assert!(rendered.contains("sg1000/champion-golf release 1: \"Champion Golf\" — left empty"));
}

#[test]
fn uncurated_games_are_left_alone() {
    let mut g = game(false, vec![release(None, &[B])]);
    let mut report = Report::new();
    let mut stats = Stats { titled: 0, sized: 0, skipped_romanised: 0, skipped_no_dump: 0 };
    assert!(!backfill_titles(&mut g, "champion-golf", &titles(), &mut report, &mut stats));
    assert_eq!(g.releases[0].title, None);
    assert_eq!(stats.titled, 0);
    assert_eq!(report.item_count(), 0);
}
