use missingno_gamedb::{Date, ReleaseDate, Sha1, Slug};

#[test]
fn sha1_normalizes_and_validates() {
    let sha1: Sha1 = "D960E951B18D07E79D046313DF49C18313664224".parse().unwrap();
    assert_eq!(sha1.as_str(), "d960e951b18d07e79d046313df49c18313664224");
    assert!("abc".parse::<Sha1>().is_err());
    assert!(
        "z960e951b18d07e79d046313df49c18313664224"
            .parse::<Sha1>()
            .is_err()
    );
}

#[test]
fn slug_charset() {
    assert!("144p-test-suite".parse::<Slug>().is_ok());
    assert!("2brownboyz_restaurant-rumble-demo".parse::<Slug>().is_ok());
    assert!("".parse::<Slug>().is_err());
    assert!("Bad Slug".parse::<Slug>().is_err());
}

#[test]
fn date_requires_full_precision() {
    assert!("2026-07-21".parse::<Date>().is_ok());
    for bad in ["2026", "2026-07", "2026-13-01", "yesterday"] {
        assert!(bad.parse::<Date>().is_err(), "{bad}");
    }
}

#[test]
fn release_date_precision() {
    for ok in ["1998", "1998-03", "1998-03-01"] {
        assert!(ok.parse::<ReleaseDate>().is_ok(), "{ok}");
    }
    for bad in ["98", "1998-13", "1998-3", "1998-03-32", "1998/03/01"] {
        assert!(bad.parse::<ReleaseDate>().is_err(), "{bad}");
    }
}

#[test]
fn sha1_error_names_the_lowercased_input() {
    let err = "ABC".parse::<Sha1>().unwrap_err();
    assert_eq!(err, "not a 40-digit hex sha1: \"abc\"");
}

#[test]
fn sha1_parse_is_case_blind_and_idempotent() {
    let upper: Sha1 = "0123456789ABCDEF0123456789ABCDEF01234567".parse().unwrap();
    let lower: Sha1 = "0123456789abcdef0123456789abcdef01234567".parse().unwrap();
    assert_eq!(upper, lower);
    let again: Sha1 = upper.as_str().parse().unwrap();
    assert_eq!(again, upper);
}

#[test]
fn sha1_rejects_forty_one_digits() {
    assert!("0123456789abcdef0123456789abcdef012345678".parse::<Sha1>().is_err());
}

#[test]
fn slug_error_message() {
    let err = "Bad Slug".parse::<Slug>().unwrap_err();
    assert_eq!(
        err,
        "invalid slug \"Bad Slug\": expected lowercase alphanumerics, '-' or '_'"
    );
}

#[test]
fn date_error_messages() {
    assert_eq!(
        "2026".parse::<Date>().unwrap_err(),
        "invalid date \"2026\": expected YYYY-MM-DD"
    );
    assert_eq!(
        "98".parse::<ReleaseDate>().unwrap_err(),
        "invalid date \"98\": expected YYYY, YYYY-MM, or YYYY-MM-DD"
    );
}

#[test]
fn release_date_year_is_its_prefix() {
    let date: ReleaseDate = "1998-03-01".parse().unwrap();
    assert_eq!(date.year(), "1998");
    assert_eq!(date.as_str(), "1998-03-01");
    let year_only: ReleaseDate = "2001".parse().unwrap();
    assert_eq!(year_only.year(), "2001");
}

#[test]
fn every_day_is_a_release_date() {
    for day in ["2026-07-21", "1999-12-31", "2000-01-01"] {
        assert!(day.parse::<Date>().is_ok());
        assert!(day.parse::<ReleaseDate>().is_ok());
    }
}

#[test]
fn month_and_day_bounds() {
    assert!("1998-12".parse::<ReleaseDate>().is_ok());
    assert!("1998-00".parse::<ReleaseDate>().is_err());
    assert!("1998-01-31".parse::<Date>().is_ok());
    assert!("1998-01-00".parse::<Date>().is_err());
}
