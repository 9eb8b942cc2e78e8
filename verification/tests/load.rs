use missingno_gamedb::{
    Database, FormatFile, Game, GameBoy, GameKind, LoadFile, Severity, Tree, format_all,
};

fn game(title: &str) -> Game<GameBoy> {
    Game {
        title: title.to_owned(),
        kind: GameKind::Game,
        developer: None,
        description: None,
        tags: vec![],
        links: vec![],
        covers: vec![],
        screenshots: vec![],
        mod_of: None,
        mods: vec![],
        curated: false,
        adult: false,
        recommended_by: vec![],
        releases: vec![],
    }
}

#[test]
fn loading_files_good_entries_and_reports_the_rest() {
    let files = vec![
        LoadFile { name: "Bad Dir".to_owned(), path: "gb/Bad Dir/manifest.ron".to_owned(), content: Ok(Ok(game("X"))) },
        LoadFile { name: "alleyway".to_owned(), path: "gb/alleyway/manifest.ron".to_owned(), content: Ok(Ok(game("Alleyway"))) },
        LoadFile { name: "broken".to_owned(), path: "gb/broken/manifest.ron".to_owned(), content: Ok(Err("parse failed".to_owned())) },
        LoadFile { name: "gone".to_owned(), path: "gb/gone/manifest.ron".to_owned(), content: Err("unreadable".to_owned()) },
        LoadFile { name: "tetris".to_owned(), path: "gb/tetris/manifest.ron".to_owned(), content: Ok(Ok(game("Tetris"))) },
    ];
    let (tree, issues): (Tree<GameBoy>, _) = Tree::load(files);
    assert_eq!(tree.games.len(), 2);
    assert_eq!(tree.games[0].slug.as_str(), "alleyway");
    assert_eq!(tree.games[1].slug.as_str(), "tetris");
    assert_eq!(tree.games[1].game.title, "Tetris");
    assert_eq!(issues.len(), 3);
    assert!(issues[0].message.starts_with("invalid slug \"Bad Dir\""));
    assert_eq!(issues[1].message, "parse failed");
    assert_eq!(issues[2].path, "gb/gone/manifest.ron");
}

#[test]
fn a_database_gathers_issues_in_tree_order() {
    let gb = vec![LoadFile { name: "Nope".to_owned(), path: "gb/Nope".to_owned(), content: Ok(Ok(game("A"))) }];
    let vcs = vec![LoadFile { name: "x".to_owned(), path: "vcs/x".to_owned(), content: Err("io".to_owned()) }];
    let (db, issues) = Database::load(gb, vec![], vcs);
    assert!(db.gb.games.is_empty() && db.gbc.games.is_empty() && db.vcs.games.is_empty());
    assert_eq!(issues.len(), 2);
    assert_eq!(issues[0].path, "gb/Nope");
    assert_eq!(issues[1].path, "vcs/x");
}

#[test]
fn fmt_rewrites_only_drifted_files() {
    let files = vec![
        FormatFile { path: "a".to_owned(), text: "same\n".to_owned(), formatted: Ok(Ok("same\n".to_owned())) },
        FormatFile { path: "b".to_owned(), text: "drift".to_owned(), formatted: Ok(Ok("canonical\n".to_owned())) },
        FormatFile { path: "c".to_owned(), text: "junk".to_owned(), formatted: Err("bad".to_owned()) },
        FormatFile { path: "d".to_owned(), text: "x".to_owned(), formatted: Ok(Err("no".to_owned())) },
    ];
    let (report, writes) = format_all(files);
    assert_eq!(writes, vec![("b".to_owned(), "canonical\n".to_owned())]);
    assert_eq!(report.rewritten, vec!["b".to_owned()]);
    assert_eq!(report.errors.len(), 2);
    assert_eq!(report.errors[0].message, "parse error: bad");
    assert_eq!(report.errors[1].message, "serialize error: no");
    assert!(report.errors.iter().all(|f| f.severity == Severity::Error));
}
