use missingno_gamedb::strings::parse_u64;
use missingno_gamedb::backfill_sg1000::{field, is_romanisation, local_dumps, native_title, softlist_titles, title_for};
use missingno_gamedb::cli::{finding_line, format_summary, platform_tree_probes, resolve_db_root, rewrote_line, validation_summary};
use missingno_gamedb::import_colecovision;
use missingno_gamedb::import_sg1000;
use missingno_gamedb::migrate_sizes::TreeStats;
use missingno_gamedb::migrate_vcs::{split_wip, unify_scalar};
use missingno_gamedb::{Finding, FormatReport, Region, Report, TvStandard};

#[test]
fn native_titles_and_romanisations() {
    assert_eq!(native_title("Tian Kong Zhan Shi ~ 天空戰士"), Some("天空戰士".to_owned()));
    assert_eq!(native_title("オセロ"), Some("オセロ".to_owned()));
    assert_eq!(native_title("Reading ~  "), None);
    assert!(is_romanisation("Tian Kong Zhan Shi"));
    assert!(!is_romanisation("天空戰士"));
    assert!(!is_romanisation("ｵｾﾛ"));
    assert!(!is_romanisation("한글"));
}

#[test]
fn software_list_fields() {
    let block = "name=\"othello\"><description>Othello</description><info name=\"alt_title\" value=\"オセロ\" />";
    assert_eq!(field(block, "alt_title\" value=\""), Some("オセロ".to_owned()));
    assert_eq!(field(block, "missing=\""), None);
    assert_eq!(field("tag=\"open", "tag=\""), None);
}

#[test]
fn software_list_titles_by_hash() {
    let xml = "<softwarelist name=\"sg1000\">\n\
        <software name=\"othello\"><info name=\"alt_title\" value=\"Osero ~ オセロ\" />\
        <rom name=\"a\" sha1=\"AB12\" /><rom name=\"b\" sha1=\"cd34\" /></software>\n\
        <software name=\"plain\"><description>Plain</description><rom sha1=\"ef56\" /></software>\n\
        <software name=\"again\"><info name=\"alt_title\" value=\"テスト\" /><rom sha1=\"cd34\" /></software>\n\
        </softwarelist>";
    let pairs = softlist_titles(xml);
    assert_eq!(
        pairs,
        vec![
            ("ab12".to_owned(), "オセロ".to_owned()),
            ("cd34".to_owned(), "オセロ".to_owned()),
            ("cd34".to_owned(), "テスト".to_owned()),
        ]
    );
    assert_eq!(title_for(&pairs, "ab12"), Some("オセロ".to_owned()));
    // A later entry for the same hash wins.
    assert_eq!(title_for(&pairs, "cd34"), Some("テスト".to_owned()));
    assert_eq!(title_for(&pairs, "ef56"), None);
    assert!(softlist_titles("no software here").is_empty());
}

#[test]
fn held_dumps_are_the_forty_byte_first_words() {
    let text = "D960E951B18D07E79D046313DF49C18313664224  game.sg\n\
                short  file\n\
                \n\
                \t0123456789abcdef0123456789abcdef01234567\r\n";
    assert_eq!(
        local_dumps(text),
        vec![
            "d960e951b18d07e79d046313df49c18313664224".to_owned(),
            "0123456789abcdef0123456789abcdef01234567".to_owned()
        ]
    );
    // Forty characters that are not forty bytes are no dump; forty bytes are.
    assert!(local_dumps(&format!("{}\n", "é".repeat(40))).is_empty());
    assert_eq!(local_dumps(&"É".repeat(20)), vec!["É".repeat(20)]);
}

#[test]
fn variant_titles_and_scalar_fields() {
    assert_eq!(split_wip("Star Fire (WIP)"), ("Star Fire".to_owned(), true));
    assert_eq!(split_wip("Star Fire"), ("Star Fire".to_owned(), false));
    assert_eq!(split_wip("(WIP)"), ("(WIP)".to_owned(), false));

    let mut report = Report::new();
    assert_eq!(unify_scalar(&vec![None, None], "Pitfall", "developer", &mut report), None);
    assert_eq!(
        unify_scalar(&vec![Some("Activision".to_owned()), None, Some("Activision".to_owned())], "Pitfall", "developer", &mut report),
        Some("Activision".to_owned())
    );
    assert_eq!(report.item_count(), 0);
    assert_eq!(
        unify_scalar(&vec![Some("A".to_owned()), Some("B".to_owned())], "Other", "publisher", &mut report),
        None
    );
    assert_eq!(
        report.render("v"),
        "# v\n\n## Conflicting game fields left empty (1)\n\n- \"Other\": publisher differs across variants\n"
    );
}

#[test]
fn markets_state_the_tv_standard() {
    assert_eq!(import_sg1000::tv_format(&vec![]), None);
    assert_eq!(import_sg1000::tv_format(&vec![Region::Europe, Region::Japan]), Some(TvStandard::Ntsc));
    assert_eq!(import_sg1000::tv_format(&vec![Region::Europe]), Some(TvStandard::Pal));
    assert_eq!(import_colecovision::tv_format(&vec![]), None);
    assert_eq!(import_colecovision::tv_format(&vec![Region::Europe, Region::Usa]), Some(TvStandard::Ntsc));
    assert_eq!(import_colecovision::tv_format(&vec![Region::Brazil]), Some(TvStandard::PalM));
    assert_eq!(import_colecovision::tv_format(&vec![Region::Brazil, Region::Europe]), Some(TvStandard::Pal));
}

#[test]
fn computer_software_is_skipped() {
    let sg = vec!["Game (Japan).sg".to_owned()];
    let sc = vec!["Game (Japan).sc".to_owned()];
    assert_eq!(import_sg1000::skip_entry("Game (Japan)", &sg), None);
    assert_eq!(import_sg1000::skip_entry("Game (Japan)", &vec!["GAME.SG".to_owned()]), None);
    assert_eq!(import_sg1000::skip_entry("Game (Japan)", &sc), Some("SC-3000/SF-7000 program entries skipped"));
    assert_eq!(import_sg1000::skip_entry("Basic (Japan) (SC-3000)", &sg), Some("SC-3000/SF-7000 program entries skipped"));
}

#[test]
fn tree_stats_line() {
    let stats = TreeStats { tree: "sg1000", restated: 2, folded: 10, boards_stated: 3, refused: 1, dropped: 12, rewritten: 11 };
    assert_eq!(
        stats.line(),
        "sg1000: 10 ROM sizes folded onto boards (3 boards newly stated, 1 refused), 12 dump lengths dropped, 2 bare boards restated, 11 manifests rewritten"
    );
}

#[test]
fn command_lines_and_outcomes() {
    assert_eq!(resolve_db_root("repo", false, true), "repo/data");
    assert_eq!(resolve_db_root("repo", true, true), "repo");
    assert_eq!(resolve_db_root("fixture", false, false), "fixture");
    assert_eq!(platform_tree_probes("/db"), vec!["/db/gb".to_owned(), "/db/gbc".to_owned(), "/db/vcs".to_owned()]);

    let findings = vec![
        Finding::error("gb/a/manifest.ron", "game has no releases".to_owned()),
        Finding::warning("gb/b/manifest.ron", "mod base sha1 x not found in the gb tree".to_owned()),
    ];
    assert_eq!(finding_line(&findings[0]), "gb/a/manifest.ron: error: game has no releases");
    assert_eq!(validation_summary(&findings), ("1 errors, 1 warnings".to_owned(), true));
    assert_eq!(validation_summary(&findings[1..].to_vec()), ("0 errors, 1 warnings".to_owned(), false));

    let report = FormatReport { rewritten: vec!["a".to_owned()], errors: vec![] };
    assert_eq!(format_summary(&report), ("1 rewritten, 0 errors".to_owned(), true));
    assert_eq!(rewrote_line("gb/a/manifest.ron"), "rewrote gb/a/manifest.ron");
}

#[test]
fn sizes_read_as_std_reads_a_u64() {
    assert_eq!(parse_u64("32768"), Some(32768));
    assert_eq!(parse_u64("+7"), Some(7));
    assert_eq!(parse_u64("18446744073709551615"), Some(u64::MAX));
    for text in ["", "+", "-1", " 1", "1 ", "0x10", "18446744073709551616", "++1"] {
        assert_eq!(parse_u64(text), text.parse::<u64>().ok(), "{text:?}");
    }
}
