use missingno_gamedb::import_flags::{Stats, import_report, kind_for, subjects};
use missingno_gamedb::{Flag, FlagFile, FlagKind};

fn fresh() -> Stats {
    Stats { imported: 0, skipped_sections: 0, duplicates: 0 }
}

#[test]
fn parses_sections_and_subjects() {
    let report = "# t\n\n## Near-miss titles left unmerged (1)\n\n- \"A\" vs \"A (x)\"\n\n\
                  ## Leftover old entries (not in any DAT) — mechanically converted (1)\n\n- gb/hugo\n\n\
                  ## BIOS entries skipped (1)\n\n- \"[BIOS] X\"\n";
    let mut file = FlagFile { flags: vec![] };
    let mut stats = fresh();
    import_report(&mut file, report, &mut stats);
    assert_eq!(stats.imported, 2);

    assert_eq!(file.flags.len(), 2);
    assert_eq!(file.flags[0].kind, FlagKind::NearMissTitles);
    assert_eq!(file.flags[1].kind, FlagKind::Leftover);
    assert_eq!(file.flags[1].subject, vec!["gb/hugo".to_owned()]);

    // Re-import is a no-op.
    let mut stats = fresh();
    import_report(&mut file, report, &mut stats);
    assert_eq!(stats.imported, 0);
    assert_eq!(stats.duplicates, 2);
}

#[test]
fn flags_are_numbered_on_and_carry_the_section_in_their_note() {
    let mut file = FlagFile {
        flags: vec![Flag { id: 7, kind: FlagKind::Custom, subject: vec![], note: "old".to_owned() }],
    };
    let mut stats = fresh();
    import_report(
        &mut file,
        "## Unknown name qualifiers (2)\n- \"Foo\" in \"Bar (Foo)\"\r\n- vcs/a and gbc/b-2\n## BIOS entries skipped (1)\n- x\n",
        &mut stats,
    );
    assert_eq!(stats.imported, 2);
    assert_eq!(stats.skipped_sections, 1);
    assert_eq!(file.flags[1].id, 8);
    assert_eq!(file.flags[2].id, 9);
    assert_eq!(file.flags[1].note, "Unknown name qualifiers: \"Foo\" in \"Bar (Foo)\"");
    assert_eq!(file.flags[2].subject, vec!["gbc/b-2".to_owned(), "vcs/a".to_owned()]);
    assert_eq!(file.flags[2].kind, FlagKind::UnknownQualifier);
}

#[test]
fn items_before_any_section_are_not_questions() {
    let mut file = FlagFile { flags: vec![] };
    let mut stats = fresh();
    import_report(&mut file, "- gb/orphan\n", &mut stats);
    assert_eq!(stats.imported, 0);
    assert!(file.flags.is_empty());
}

#[test]
fn section_kinds() {
    assert_eq!(kind_for("Near-miss titles left unmerged"), FlagKind::NearMissTitles);
    assert_eq!(
        kind_for("Same-title families left separate (review candidates)"),
        FlagKind::ReviewCandidateFamilies
    );
    assert_eq!(kind_for("Leftover old entries (not in any DAT)"), FlagKind::Leftover);
    assert_eq!(kind_for("Unknown name qualifiers"), FlagKind::UnknownQualifier);
    assert_eq!(kind_for("Conflicting game fields left empty"), FlagKind::ConflictingField);
    assert_eq!(kind_for("Old hashes absent from current DATs — dropped"), FlagKind::RetiredHash);
    assert_eq!(kind_for("Renamed"), FlagKind::Custom);
}

#[test]
fn subjects_are_found_once_each() {
    assert_eq!(subjects("gb/a → gb/a, vcs/x-y_z/q!"), vec!["gb/a".to_owned(), "vcs/x-y_z/q".to_owned()]);
    assert_eq!(subjects("a bare gb/ is no subject"), Vec::<String>::new());
    assert_eq!(subjects("gbc/zelda"), vec!["gbc/zelda".to_owned()]);
}
