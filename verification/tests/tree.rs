use missingno_gamedb::tree::sha1_multiset;
use missingno_gamedb::{Artifact, Game, GameKind, GbcHardware, GameBoyColor, Release, ReleaseStatus};

fn game(hashes: &[&str]) -> Game<GameBoyColor> {
    Game {
        title: "G".to_owned(),
        kind: GameKind::Game,
        developer: None,
        description: None,
        tags: vec![],
        links: vec![],
        covers: vec![],
        screenshots: vec![],
        mod_of: None,
        mods: vec![],
        curated: false,
        adult: false,
        recommended_by: vec![],
        releases: vec![Release {
            title: None,
            label: None,
            regions: vec![],
            date: None,
            publisher: None,
            status: ReleaseStatus::Released,
            hardware: GbcHardware { cart_type: None },
            artifacts: hashes
                .iter()
                .map(|h| Artifact { sha1: h.parse().unwrap(), label: None, defect: None, size: None })
                .collect(),
        }],
    }
}

const A: &str = "aaaaaaaaaaaaaaaaaaaaaaaaaaaaaaaaaaaaaaaa";
const B: &str = "bbbbbbbbbbbbbbbbbbbbbbbbbbbbbbbbbbbbbbbb";
const C: &str = "0000000000000000000000000000000000000000";

#[test]
fn the_dump_multiset_is_sorted_with_repeats() {
    let games = vec![("x".to_owned(), game(&[B, A])), ("y".to_owned(), game(&[C, B]))];
    assert_eq!(sha1_multiset(&games), vec![C.to_owned(), A.to_owned(), B.to_owned(), B.to_owned()]);
    let moved = vec![("z".to_owned(), game(&[B, C, B, A]))];
    assert_eq!(sha1_multiset(&games), sha1_multiset(&moved));
    assert!(sha1_multiset(&Vec::<(String, Game<GameBoyColor>)>::new()).is_empty());
}
