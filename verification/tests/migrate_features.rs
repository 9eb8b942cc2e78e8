use missingno_gamedb::migrate_features::{Split, Stats, rename_controllers, split_features, split_term, write_list};

const SPLIT: &str = r#"(
    title: "Split",
    releases: [
        (
            hardware: (
                features: [
                    SuperGameBoyEnhanced,
                    GameLink,
                ],
                cart_type: Some(Mbc1(
                    rom: Kb512,
                    ram: None,
                    battery: false,
                )),
            ),
            artifacts: [
                (
                    sha1: "0123456789abcdef0123456789abcdef01234567",
                ),
            ],
        ),
        (
            hardware: (
                features: [],
            ),
            artifacts: [
                (
                    sha1: "89abcdef0123456789abcdef0123456789abcdef",
                ),
            ],
        ),
    ],
)
"#;

const CONTROLLED: &str = r#"(
    title: "Controlled",
    releases: [
        (
            hardware: (
                tv_format: Some(Ntsc),
                controllers: [
                    Paddle,
                ],
            ),
            artifacts: [
                (
                    sha1: "920cfbd517764ad3fa6a7425c031bd72dc7d927c",
                ),
            ],
        ),
    ],
)
"#;

fn fresh() -> Stats {
    Stats {
        gb_files: 0,
        gbc_files: 0,
        vcs_files: 0,
        super_game_boy: 0,
        game_boy_color: 0,
        link_cable: 0,
        printer: 0,
        cleared_lists: 0,
        controller_lists: 0,
    }
}

#[test]
fn features_split_by_kind_and_controllers_are_renamed() {
    let mut stats = fresh();
    let split = split_features(SPLIT, &mut stats).unwrap().expect("a features list was split");
    assert_eq!((stats.super_game_boy, stats.link_cable), (1, 1));
    assert_eq!(stats.cleared_lists, 1);
    assert!(split.contains(
        "                enhancements: [\n                    SuperGameBoy,\n                ],\n                peripherals: [\n                    LinkCable,\n                ],\n"
    ));
    // A stated empty list is not a claim that it drives no peripheral.
    assert!(split.contains("                enhancements: [],\n            ),"));
    assert!(!split.contains("features"));

    let (controlled, renamed) = rename_controllers(CONTROLLED);
    assert_eq!(renamed, 1);
    assert_eq!(controlled, CONTROLLED.replace("controllers:", "peripherals:"));

    // A repeat changes nothing.
    let mut again = fresh();
    assert_eq!(split_features(&split, &mut again), Ok(None));
    assert_eq!(rename_controllers(&controlled).1, 0);
}

#[test]
fn unknown_terms_and_open_lists_stop_the_split() {
    let mut stats = fresh();
    assert_eq!(
        split_features("(\n    features: [\n        Rumble,\n    ],\n)\n", &mut stats),
        Err("unknown feature \"Rumble\"".to_owned())
    );
    assert_eq!(
        split_features("(\n    features: [\n        GameLink,\n", &mut stats),
        Err("unterminated features list".to_owned())
    );
    let mut stats = fresh();
    assert_eq!(split_features("(\n    title: \"Plain\",\n)\n", &mut stats), Ok(None));
}

#[test]
fn every_known_term_lands_in_its_list() {
    assert_eq!(split_term("SuperGameBoyEnhanced"), Some(Split::Enhancement("SuperGameBoy")));
    assert_eq!(split_term("GameBoyColorEnhanced"), Some(Split::Enhancement("GameBoyColor")));
    assert_eq!(split_term("GameLink"), Some(Split::Peripheral("LinkCable")));
    assert_eq!(split_term("Printer"), Some(Split::Peripheral("Printer")));
    assert_eq!(split_term("Rumble"), None);
    let mut stats = fresh();
    let out = split_features(
        "    features: [\n        GameBoyColorEnhanced,\n        Printer,,\n    ],\n",
        &mut stats,
    )
    .unwrap()
    .unwrap();
    assert_eq!(
        out,
        "    enhancements: [\n        GameBoyColor,\n    ],\n    peripherals: [\n        Printer,\n    ],\n"
    );
    assert_eq!((stats.game_boy_color, stats.printer, stats.cleared_lists), (1, 1, 0));
}

#[test]
fn lists_are_written_canonically() {
    let mut out = String::from("x\n");
    write_list(&mut out, "  ", "peripherals", &vec![]);
    write_list(&mut out, "  ", "enhancements", &vec!["SuperGameBoy", "GameBoyColor"]);
    assert_eq!(
        out,
        "x\n  peripherals: [],\n  enhancements: [\n      SuperGameBoy,\n      GameBoyColor,\n  ],\n"
    );
}
