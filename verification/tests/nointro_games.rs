use missingno_gamedb::import_nointro::{DatRom, entry_dumps, is_bios_entry, parse_name};
use missingno_gamedb::legacy::LegacyManifest;
use missingno_gamedb::nointro_games::{DatEntry, DatGame, OldCommercial, dat_entries, import_trees};
use missingno_gamedb::{Feature, GameKind, Report};

fn entry(name: &str, sha1: &str, from_gbc_dat: bool, report: &mut Report) -> DatEntry {
    let parsed = parse_name(name, report);
    let roms = vec![DatRom { name: Some(format!("{name}.gb")), sha1: Some(sha1.to_owned()), size: Some("524288".to_owned()) }];
    let dumps = entry_dumps(name, &roms, report);
    DatEntry { parsed, dumps, from_gbc_dat }
}

fn old_entry(title: &str, slug: &str, description: Option<&str>, hashes: &[&str]) -> OldCommercial {
    OldCommercial {
        tree: "gb".to_owned(),
        slug: slug.to_owned(),
        manifest: LegacyManifest {
            title: title.to_owned(),
            date: None,
            region: Some("USA".to_owned()),
            developer: None,
            publisher: None,
            description: description.map(str::to_owned),
            tv_format: None,
            cart_type: None,
            hashes: hashes.iter().map(|h| h.to_string()).collect(),
            source: None,
            tags: vec![],
            screenshots: vec![],
            links: vec![],
        },
    }
}

#[test]
fn imports_routes_and_merges() {
    let mut report = Report::new();
    assert!(is_bios_entry("[BIOS] Boot ROM (World)"));
    let dat = vec![
        entry("Zelda (USA) (SGB Enhanced)", "0123456789abcdef0123456789abcdef01234567", false, &mut report),
        entry("Zelda (Europe) (Rev A) (SGB Enhanced)", "fedcba9876543210fedcba9876543210fedcba98", false, &mut report),
        entry("Dual Game (USA) (GB Compatible)", "89abcdef0123456789abcdef0123456789abcdef", true, &mut report),
        entry("Colors Only (USA) (Demo)", "1111111189abcdef0123456789abcdef01234567", true, &mut report),
    ];
    let prev = vec![old_entry("Zelda (USA)", "zelda-old", Some("A classic."), &["0123456789abcdef0123456789abcdef01234567"])];
    let (gb, gbc, stats, notes) = import_trees(&dat, &prev, &vec![], &vec![], 4).unwrap();
    assert_eq!(stats.dat_entries, 4);
    assert_eq!(stats.moved_to_gb, 1);
    assert_eq!(stats.merged, 1);
    assert_eq!(stats.leftovers, 0);
    assert_eq!(stats.gb_games, 2);
    assert_eq!(stats.gbc_games, 1);
    assert!(notes.is_empty());

    let (slug, zelda) = gb.iter().find(|(_, g)| g.title == "Zelda").unwrap();
    assert_eq!(slug, "zelda");
    assert_eq!(zelda.description.as_deref(), Some("A classic."));
    assert_eq!(zelda.releases.len(), 2);
    assert!(zelda.releases.iter().any(|r| r.label.as_deref() == Some("Rev A")));
    assert!(zelda.releases.iter().all(|r| r.hardware.features == vec![Feature::SuperGameBoyEnhanced]));

    let (slug, dual) = gb.iter().find(|(_, g)| g.title == "Dual Game").unwrap();
    assert_eq!(slug, "dual-game");
    assert!(dual.releases[0].hardware.features.contains(&Feature::GameBoyColorEnhanced));

    let (slug, demo) = &gbc[0];
    assert_eq!(slug, "colors-only");
    assert_eq!(demo.kind, GameKind::Demo);
}

#[test]
fn unclaimed_entries_are_carried_over_and_must_keep_their_dumps() {
    let mut report = Report::new();
    let dat = vec![entry("Tetris (World)", "2222222222222222222222222222222222222222", false, &mut report)];
    let prev = vec![
        old_entry("Tetris", "tetris-old", None, &["2222222222222222222222222222222222222222", "3333333333333333333333333333333333333333"]),
        old_entry("Lost Game", "lost-game", None, &["4444444444444444444444444444444444444444"]),
    ];
    let taken = vec!["tetris".to_owned()];
    let (gb, _, stats, notes) = import_trees(&dat, &prev, &taken, &vec![], 1).unwrap();
    assert_eq!(stats.leftovers, 1);
    let slugs: Vec<&str> = gb.iter().map(|(s, _)| s.as_str()).collect();
    assert_eq!(slugs, vec!["tetris-2", "lost-game"]);
    let sections: Vec<&str> = notes.iter().map(|(s, _)| s.as_str()).collect();
    assert_eq!(
        sections,
        vec![
            "Leftover old entries (not in any DAT) — mechanically converted",
            "Slug collisions suffixed",
            "Old hashes absent from current DATs — dropped",
        ]
    );
    assert_eq!(notes[2].1, "gb/tetris-old: 3333333333333333333333333333333333333333");

    let prev = vec![old_entry("Tetris", "tetris-old", None, &["2222222222222222222222222222222222222222"]), {
        let mut o = old_entry("Other", "other", None, &["5555555555555555555555555555555555555555"]);
        o.manifest.hashes.push("not a hash".to_owned());
        o
    }];
    assert!(import_trees(&dat, &prev, &vec![], &vec![], 1).is_ok());
}

fn rom(name: &str, sha1: Option<&str>) -> DatRom {
    DatRom { name: Some(name.to_owned()), sha1: sha1.map(str::to_owned), size: Some("32768".to_owned()) }
}

#[test]
fn dat_games_become_entries_under_their_header() {
    let games = vec![
        DatGame { name: "[BIOS] Boot ROM (World)".to_owned(), roms: vec![rom("boot.bin", Some("2222222222222222222222222222222222222222"))] },
        DatGame {
            name: "Tetris (World) (Rev 1)".to_owned(),
            roms: vec![rom("Tetris (World) (Rev 1).gbc", Some("ABCDEF0123456789ABCDEF0123456789ABCDEF01"))],
        },
        DatGame { name: "No Hash (USA)".to_owned(), roms: vec![rom("No Hash (USA).gbc", None)] },
    ];
    let mut report = Report::new();
    let (entries, read) = dat_entries("Nintendo - Game Boy Color", &games, &mut report).unwrap();
    assert_eq!(read, 2);
    assert_eq!(entries.len(), 1);
    assert!(entries[0].from_gbc_dat);
    assert_eq!(entries[0].parsed.title, "Tetris");
    assert_eq!(entries[0].parsed.label.as_deref(), Some("Rev 1"));
    assert_eq!(entries[0].dumps.len(), 1);
    assert_eq!(entries[0].dumps[0].sha1.as_str(), "abcdef0123456789abcdef0123456789abcdef01");
    assert_eq!(entries[0].dumps[0].size, Some(32768));
    let rendered = report.render("import");
    assert!(rendered.contains("BIOS entries skipped"));
    assert!(rendered.contains("\"[BIOS] Boot ROM (World)\""));

    let (gb_entries, _) = dat_entries("Nintendo - Game Boy", &games, &mut Report::new()).unwrap();
    assert!(!gb_entries[0].from_gbc_dat);

    let mut untouched = Report::new();
    let err = dat_entries("Sega - Master System", &games, &mut untouched).unwrap_err();
    assert_eq!(err, "unrecognized DAT header \"Sega - Master System\"");
    assert_eq!(untouched.item_count(), 0);
}

#[test]
fn a_dat_file_is_read_from_its_text() {
    let text = r#"<?xml version="1.0"?>
<datafile>
    <header>
        <name>Nintendo - Game Boy</name>
    </header>
    <game name="[BIOS] Nintendo Game Boy Boot ROM (World)" id="0001">
        <rom name="boot.bin" size="256" sha1="4ed31ec6b0b175bb109c0eb5fd3d193da823339f"/>
    </game>
    <game name="Tetris (World) (Rev 1)" id="0002">
        <description>Tetris (World) (Rev 1)</description>
        <rom name="Tetris (World) (Rev 1).gb" size="32768" sha1="74591CC9501AF93873F9A5D3EB12DA12C0723BBC"/>
    </game>
</datafile>
"#;
    let mut report = Report::new();
    let (entries, read) = missingno_gamedb::dat_file::dat_from_text(text, &mut report).unwrap().unwrap();
    assert_eq!(read, 1);
    assert_eq!(entries.len(), 1);
    assert!(!entries[0].from_gbc_dat);
    assert_eq!(entries[0].parsed.title, "Tetris");
    assert_eq!(entries[0].dumps[0].sha1.as_str(), "74591cc9501af93873f9a5d3eb12da12c0723bbc");
    assert_eq!(entries[0].dumps[0].size, Some(32768));
    assert_eq!(entries[0].dumps[0].filename.as_deref(), Some("Tetris (World) (Rev 1).gb"));
    assert!(report.render("import").contains("BIOS entries skipped"));

    let mut untouched = Report::new();
    assert!(missingno_gamedb::dat_file::dat_from_text("<datafile>", &mut untouched).unwrap().is_err());
    assert_eq!(untouched.item_count(), 0);
    let refused = missingno_gamedb::dat_file::dat_from_text("<datafile><header><name>Sega</name></header></datafile>", &mut untouched);
    assert!(matches!(refused, Some(Err(e)) if e == "unrecognized DAT header \"Sega\""));
}

#[test]
fn a_dat_name_closing_an_unopened_bracket_is_not_read() {
    let text = "<datafile><header><name>Nintendo - Game Boy</name></header><game name=\"Odd) (USA)\"><rom name=\"x.gb\" sha1=\"74591cc9501af93873f9a5d3eb12da12c0723bbc\"/></game></datafile>";
    let mut report = Report::new();
    assert!(missingno_gamedb::dat_file::dat_from_text(text, &mut report).is_none());
    assert_eq!(report.item_count(), 0);
}
