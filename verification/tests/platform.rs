use missingno_gamedb::{Defect, Language, platform_dirs};
use missingno_gamedb::flags::{Flag, FlagFile, FlagKind};
use missingno_gamedb::rejected::{RejectedFile, Rejection};

#[test]
fn platform_dirs_are_the_whole_axis() {
    assert_eq!(platform_dirs(), ["gb", "gbc", "sg1000", "vcs"]);
}

#[test]
fn labels() {
    assert_eq!(Defect::Overdump.label(), "overdump");
    assert_eq!(Defect::BadDump.label(), "bad dump");
    assert_eq!(Language::English.label(), "English");
    assert_eq!(Language::Swedish.label(), "Swedish");
}

fn flag(id: u32) -> Flag {
    Flag { id, kind: FlagKind::Custom, subject: vec!["gb/hugo".to_owned()], note: "n".to_owned() }
}

#[test]
fn next_flag_id_follows_the_largest() {
    assert_eq!(FlagFile { flags: vec![] }.next_id(), 1);
    let file = FlagFile { flags: vec![flag(3), flag(7), flag(2)] };
    assert_eq!(file.next_id(), 8);
    assert!(file.open().iter().all(|f| f.id != file.next_id()));
    assert_eq!(file.open().len(), 3);
}

#[test]
fn curation_paths() {
    assert_eq!(FlagFile::path("/db"), "/db/curation/flags.ron");
    assert_eq!(FlagFile::path("/db/"), "/db/curation/flags.ron");
    assert_eq!(FlagFile::path(""), "curation/flags.ron");
    assert_eq!(RejectedFile::path("repo"), "repo/curation/rejected.ron");
}

#[test]
fn rejected_dumps_are_held_with_their_reason() {
    let a: missingno_gamedb::Sha1 = "1111111111111111111111111111111111111111".parse().unwrap();
    let b: missingno_gamedb::Sha1 = "2222222222222222222222222222222222222222".parse().unwrap();
    let file = RejectedFile {
        rejected: vec![
            Rejection { title: "First".to_owned(), reason: "hack".to_owned(), dumps: vec![a.clone()] },
            Rejection { title: "Second".to_owned(), reason: "dup".to_owned(), dumps: vec![b.clone(), a.clone()] },
        ],
    };
    assert!(file.holds(a.as_str()));
    assert_eq!(file.reason_for(a.as_str()).unwrap().title, "First");
    assert_eq!(file.reason_for(b.as_str()).unwrap().reason, "dup");
    assert!(!file.holds("3333333333333333333333333333333333333333"));
    assert!(file.reason_for("3333333333333333333333333333333333333333").is_none());
}
