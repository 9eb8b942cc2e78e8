use missingno_gamedb::import_nointro::{
    DatRom, DatSystem, OldEntry, entry_dumps, assign_slugs, check_preserved, dat_system, destination, free_slug_for, group_kind,
    is_bios_entry, old_matches, parse_name,
};
use missingno_gamedb::{Game, GameBoy, GameKind, Region, Report};

#[test]
fn a_name_splits_into_title_regions_and_tags() {
    let mut report = Report::new();
    let p = parse_name("Zelda (Europe) (Rev A) (SGB Enhanced)", &mut report);
    assert_eq!(p.title, "Zelda");
    assert_eq!(p.regions, vec![Region::Europe]);
    assert_eq!(p.label.as_deref(), Some("Rev A"));
    assert!(p.sgb && !p.cgb && !p.gb_compatible);
    assert_eq!(p.kind, GameKind::Game);
    assert_eq!(report.item_count(), 0);
}

#[test]
fn dates_demos_and_unknown_tags() {
    let mut report = Report::new();
    let p = parse_name("Colors Only (USA, Unknown) (Demo) (1999-05) (Beta 2) (Hmm (nested))", &mut report);
    assert_eq!(p.title, "Colors Only");
    assert_eq!(p.regions, vec![Region::Usa]);
    assert_eq!(p.kind, GameKind::Demo);
    assert_eq!(p.date.as_ref().map(|d| d.as_str()), Some("1999-05"));
    assert_eq!(p.label.as_deref(), Some("Beta 2, Hmm (nested)"));
    assert_eq!(
        report.render("n"),
        "# n\n\n## Unknown name qualifiers (1)\n\n- \"Hmm (nested)\" in \"Colors Only (USA, Unknown) (Demo) (1999-05) (Beta 2) (Hmm (nested))\"\n"
    );
}

#[test]
fn a_name_without_a_region_tag_is_reported() {
    let mut report = Report::new();
    let p = parse_name("Dual Game (GB Compatible) (Kiosk Edition)", &mut report);
    assert!(p.regions.is_empty());
    assert!(p.gb_compatible);
    assert_eq!(p.kind, GameKind::Demo);
    assert_eq!(p.label.as_deref(), Some("Kiosk Edition"));
    assert_eq!(
        report.render("n"),
        "# n\n\n## Names without a leading region tag (1)\n\n- \"Dual Game (GB Compatible) (Kiosk Edition)\"\n"
    );
}

#[test]
fn dat_headers_and_routing() {
    assert_eq!(dat_system("Nintendo - Game Boy Color"), Ok(DatSystem::GameBoyColor));
    assert_eq!(dat_system("Nintendo - Game Boy"), Ok(DatSystem::GameBoy));
    assert_eq!(dat_system("Sega - SG-1000"), Err("unrecognized DAT header \"Sega - SG-1000\"".to_owned()));
    assert!(is_bios_entry("[BIOS] Boot ROM (World)"));
    assert!(!is_bios_entry("Zelda (USA)"));
    assert_eq!(destination(DatSystem::GameBoyColor, true), DatSystem::GameBoy);
    assert_eq!(destination(DatSystem::GameBoyColor, false), DatSystem::GameBoyColor);
    assert_eq!(destination(DatSystem::GameBoy, false), DatSystem::GameBoy);
}

fn game(title: &str) -> Game<GameBoy> {
    Game {
        title: title.to_owned(),
        kind: GameKind::Game,
        developer: None,
        description: None,
        tags: vec![],
        links: vec![],
        covers: vec![],
        screenshots: vec![],
        mod_of: None,
        mods: vec![],
        curated: false,
        adult: false,
        recommended_by: vec![],
        releases: vec![],
    }
}

#[test]
fn slugs_are_suffixed_past_the_taken_ones() {
    let taken = vec!["zelda".to_owned(), "zelda-2".to_owned()];
    assert_eq!(free_slug_for(&"zelda".to_owned(), &taken), ("zelda-3".to_owned(), 3));
    assert_eq!(free_slug_for(&"mario".to_owned(), &taken), ("mario".to_owned(), 1));

    let mut games = vec![(String::new(), game("Zelda")), (String::new(), game("Zelda!")), (String::new(), game("Tetris"))];
    let mut taken = vec!["zelda".to_owned()];
    let mut notes = Vec::new();
    assign_slugs(&mut games, &mut taken, &mut notes);
    let slugs: Vec<&str> = games.iter().map(|g| g.0.as_str()).collect();
    assert_eq!(slugs, vec!["zelda-2", "zelda-3", "tetris"]);
    assert_eq!(taken, vec!["zelda", "zelda-2", "zelda-3", "tetris"]);
    assert_eq!(
        notes,
        vec![
            ("Slug collisions suffixed".to_owned(), "gb/zelda-2 for \"Zelda\"".to_owned()),
            ("Slug collisions suffixed".to_owned(), "gb/zelda-3 for \"Zelda!\"".to_owned()),
        ]
    );
}

#[test]
fn a_group_takes_its_first_special_kind() {
    assert_eq!(group_kind(&vec![]), GameKind::Game);
    assert_eq!(group_kind(&vec![GameKind::Game, GameKind::Game]), GameKind::Game);
    assert_eq!(group_kind(&vec![GameKind::Game, GameKind::Demo, GameKind::Test]), GameKind::Demo);
}

const A: &str = "aaaaaaaaaaaaaaaaaaaaaaaaaaaaaaaaaaaaaaaa";
const B: &str = "bbbbbbbbbbbbbbbbbbbbbbbbbbbbbbbbbbbbbbbb";
const C: &str = "cccccccccccccccccccccccccccccccccccccccc";

#[test]
fn found_dumps_claim_old_entries_by_hash_in_any_case() {
    let found = vec![A.to_owned(), B.to_owned()];
    let old = vec![
        vec![C.to_owned()],
        vec![B.to_uppercase()],
        vec![C.to_owned(), A.to_owned()],
        vec![],
    ];
    assert_eq!(old_matches(&found, &old), vec![1, 2]);
    assert!(old_matches(&vec![], &old).is_empty());
}

fn old_entry(tree: &str, slug: &str, hashes: &[&str], claimed: bool) -> OldEntry {
    OldEntry {
        tree: tree.to_owned(),
        slug: slug.to_owned(),
        hashes: hashes.iter().map(|h| h.to_string()).collect(),
        claimed,
    }
}

#[test]
fn claimed_entries_may_drop_hashes_out_loud() {
    let kept = vec![A.to_owned()];
    let entries = vec![
        old_entry("gb", "tetris", &[&A.to_uppercase(), "not a hash"], false),
        old_entry("gb", "zelda", &[A, B, C], true),
    ];
    assert_eq!(
        check_preserved(&entries, &kept),
        Ok(vec![format!("gb/zelda: {B}"), format!("gb/zelda: {C}")])
    );
}

#[test]
fn an_unclaimed_entry_may_not_lose_a_hash() {
    let kept = vec![A.to_owned()];
    let entries = vec![
        old_entry("gbc", "dropped", &[B], true),
        old_entry("gb", "mario", &[A, &C.to_uppercase(), B], false),
    ];
    assert_eq!(
        check_preserved(&entries, &kept),
        Err(format!("sha1 preservation violated: {C} from gb/mario lost"))
    );
}

fn rom(name: Option<&str>, sha1: Option<&str>, size: Option<&str>) -> DatRom {
    DatRom { name: name.map(str::to_owned), sha1: sha1.map(str::to_owned), size: size.map(str::to_owned) }
}

#[test]
fn a_dat_entry_keeps_the_roms_with_a_readable_sha1() {
    let mut report = Report::new();
    let roms = vec![
        rom(Some("Tetris (World).gb"), Some(&B.to_uppercase()), Some("32768")),
        rom(Some("no-hash.gb"), None, Some("1")),
        rom(None, Some("xyz"), None),
        rom(None, Some(C), Some("+12")),
        rom(None, Some(A), Some("big")),
        rom(None, Some(A), Some("18446744073709551616")),
    ];
    let dumps = entry_dumps("Tetris (World)", &roms, &mut report);
    let seen: Vec<(String, Option<u64>, Option<String>)> =
        dumps.iter().map(|d| (d.sha1.as_str().to_owned(), d.size, d.filename.clone())).collect();
    assert_eq!(
        seen,
        vec![
            (B.to_owned(), Some(32768), Some("Tetris (World).gb".to_owned())),
            (C.to_owned(), Some(12), None),
            (A.to_owned(), None, None),
            (A.to_owned(), None, None),
        ]
    );
    assert_eq!(report.item_count(), 2);
    let text = report.render("import");
    assert!(text.contains("ROMs without sha1 skipped"));
    assert!(text.contains("Invalid DAT sha1 skipped"));
    assert!(text.contains("\"Tetris (World)\": not a 40-digit hex sha1: \"xyz\""));
}

#[test]
fn a_dat_entry_with_no_usable_rom_is_reported() {
    let mut report = Report::new();
    let dumps = entry_dumps("Broken", &vec![rom(None, None, None)], &mut report);
    assert!(dumps.is_empty());
    assert_eq!(report.item_count(), 2);
    assert!(report.render("import").contains("DAT entries with no usable rom"));
}
