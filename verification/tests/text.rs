use missingno_gamedb::{Region, normalize_title, normalized_title, parse_region, parse_region_list, slugify};

#[test]
fn slugify_matches_corpus_style() {
    assert_eq!(
        slugify("Pitfall II - Lost Caverns"),
        "pitfall-ii-lost-caverns"
    );
    assert_eq!(slugify("1942"), "1942");
    assert_eq!(slugify("Q*bert"), "q-bert");
}

#[test]
fn normalize_ignores_parentheticals() {
    assert_eq!(normalize_title("15 (WIP)"), normalize_title("15"));
    assert_ne!(normalize_title("15"), normalize_title("16"));
}

#[test]
fn region_lists() {
    assert_eq!(
        parse_region_list("USA, Europe"),
        Ok(vec![Region::Usa, Region::Europe])
    );
    assert_eq!(parse_region_list("Unknown"), Ok(vec![]));
    assert_eq!(
        parse_region_list("Top Secret"),
        Err(vec!["Top Secret".to_owned()])
    );
}

#[test]
fn slugify_drops_leading_and_trailing_punctuation() {
    assert_eq!(slugify("  ...Hello,   World!!  "), "hello-world");
    assert_eq!(slugify("***"), "");
    assert_eq!(slugify("Pokémon Red"), "pok-mon-red");
}

#[test]
fn slugify_output_parses_as_a_slug() {
    for title in ["Pitfall II - Lost Caverns", "Q*bert", "A_B", "Zelda (Rev A)"] {
        let slug = slugify(title);
        assert!(slug.parse::<missingno_gamedb::Slug>().is_ok(), "{slug}");
    }
}

#[test]
fn normalized_title_casefolds_and_strips() {
    assert_eq!(normalized_title("Super Mario Land 2 [b] (Europe)"), "supermarioland2");
    assert_eq!(normalized_title("Q*Bert's Qubes"), "qbertsqubes");
    assert_eq!(normalized_title("a) b (c"), "ab");
    let once = normalized_title("Pokémon (Blue) Version!");
    assert_eq!(normalized_title(&once), once);
}

#[test]
fn region_words() {
    assert_eq!(parse_region("Japan"), Some(Some(Region::Japan)));
    assert_eq!(parse_region("United Kingdom"), Some(Some(Region::UnitedKingdom)));
    assert_eq!(parse_region("Unknown"), Some(None));
    assert_eq!(parse_region("japan"), None);
}

#[test]
fn region_list_trims_and_skips_blanks() {
    assert_eq!(
        parse_region_list(" Japan ,, Hong Kong,\tKorea "),
        Ok(vec![Region::Japan, Region::HongKong, Region::Korea])
    );
    assert_eq!(
        parse_region_list("USA, Atlantis, Mu"),
        Err(vec!["Atlantis".to_owned(), "Mu".to_owned()])
    );
    assert_eq!(parse_region_list(""), Ok(vec![]));
}

#[test]
fn slugs_are_dashed_runs_and_settled() {
    let once = slugify("  Super Mario Land 2: 6 Golden Coins!! ");
    assert_eq!(once, "super-mario-land-2-6-golden-coins");
    assert_eq!(slugify(&once), once);
}

#[test]
fn collation_ignores_case_and_never_grows() {
    let title = "Pokémon Red (USA, Europe) [SGB]";
    let n = normalized_title(title);
    assert_eq!(n, "pokmonred");
    assert!(n.len() <= title.len());
    assert_eq!(normalized_title(&title.to_ascii_uppercase()), n);
    assert_eq!(normalized_title(&n), n);
}
