use missingno_gamedb::Report;
use missingno_gamedb::verify_hashes::{
    answer_from_body, cache_from_text,
    Answer, Stats, answer_from_reply, cache_value, cached_answer, checkpoint_due, derived_reason,
    entry_selected, limit_reached, record_answer,
};

fn fresh() -> Stats {
    Stats { looked_up: 0, from_cache: 0, confirmed: 0, derived: 0, unknown: 0 }
}

#[test]
fn derived_flags_are_read_longest_first() {
    assert_eq!(derived_reason("Game (1990)(Maker)[tr de]"), Some("translation"));
    assert_eq!(derived_reason("Game [TR Fre]"), Some("translation"));
    assert_eq!(derived_reason("Game [t1]"), Some("trained"));
    assert_eq!(derived_reason("Game [h1C]"), Some("hack"));
    assert_eq!(derived_reason("Game [cr TRSi]"), Some("cracked"));
    assert_eq!(derived_reason("Game [b1]"), Some("bad dump"));
    assert_eq!(derived_reason("Game [o1]"), Some("overdump"));
    assert_eq!(derived_reason("Game [a1][!]"), None);
}

#[test]
fn answers_are_filed_by_what_they_say() {
    let mut report = Report::new();
    let mut stats = fresh();
    record_answer(&mut report, &mut stats, "vcs", "adventure", "aa", Answer::Unknown);
    record_answer(&mut report, &mut stats, "vcs", "adventure", "bb", Answer::Known("Adventure (1980) [h1]".to_owned()));
    record_answer(&mut report, &mut stats, "vcs", "adventure", "cc", Answer::Known("Adventure (1980)".to_owned()));
    assert_eq!((stats.unknown, stats.derived, stats.confirmed), (1, 1, 1));
    assert_eq!(
        report.render("h"),
        "# h\n\n## Unknown to the signature database (1)\n\n- vcs/adventure: aa\n\
         \n## Derived dump sitting in a release (1)\n\n- vcs/adventure: bb is \"Adventure (1980) [h1]\" (hack)\n\
         \n## Confirmed by the signature database (1)\n\n- vcs/adventure: cc is \"Adventure (1980)\"\n"
    );
}

#[test]
fn replies_caches_and_limits() {
    assert!(matches!(answer_from_reply(true, Some("x".to_owned()), None), Answer::Unknown));
    assert!(matches!(answer_from_reply(false, Some("rom".to_owned()), Some("top".to_owned())), Answer::Known(n) if n == "rom"));
    assert!(matches!(answer_from_reply(false, None, Some("top".to_owned())), Answer::Known(n) if n == "top"));
    assert!(matches!(answer_from_reply(false, None, None), Answer::Unknown));

    let mut stats = fresh();
    assert!(matches!(cached_answer("", &mut stats), Answer::Unknown));
    assert!(matches!(cached_answer("Name", &mut stats), Answer::Known(n) if n == "Name"));
    assert_eq!(stats.from_cache, 2);
    assert_eq!(cache_value(&Answer::Unknown), "");
    assert_eq!(cache_value(&Answer::Known("N".to_owned())), "N");

    assert!(!limit_reached(None, 1000));
    assert!(limit_reached(Some(3), 3));
    assert!(!limit_reached(Some(3), 2));
    assert!(checkpoint_due(50) && checkpoint_due(100) && !checkpoint_due(51));

    assert!(entry_selected(&None, "gb", "tetris"));
    assert!(entry_selected(&Some("gb/tetris".to_owned()), "gb", "tetris"));
    assert!(!entry_selected(&Some("gbc/tetris".to_owned()), "gb", "tetris"));
}

#[test]
fn reply_bodies_are_read_as_answers() {
    let known = answer_from_body(r#"{"name": "Top", "signature": {"rom": {"name": "Tetris (World).gb", "size": 32768}}}"#);
    assert!(matches!(known, Ok(Answer::Known(n)) if n == "Tetris (World).gb"));
    let top_only = answer_from_body(r#"{"name": "Top", "signature": {"game": {}}}"#);
    assert!(matches!(top_only, Ok(Answer::Known(n)) if n == "Top"));
    assert!(matches!(answer_from_body(r#""Not found""#), Ok(Answer::Unknown)));
    assert!(matches!(answer_from_body(r#"{"name": 7}"#), Ok(Answer::Unknown)));
    assert!(answer_from_body("<html>").is_err());
}

#[test]
fn the_cache_text_is_read_back() {
    let entries = cache_from_text(r#"{"bb": "", "aa": "Tetris"}"#);
    assert_eq!(entries, vec![("aa".to_owned(), "Tetris".to_owned()), ("bb".to_owned(), String::new())]);
    assert!(cache_from_text(r#"{"aa": 1}"#).is_empty());
    assert!(cache_from_text("not json").is_empty());
    assert!(cache_from_text("[]").is_empty());
}
