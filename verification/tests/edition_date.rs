use quilt_tiler::edition_date::EditionDate;

#[test]
fn ccyymmdd_parses_real_osenc_dates() {
    assert_eq!(
        EditionDate::from_ccyymmdd("20211209"),
        EditionDate::new(2021, 12, 9)
    );
    assert_eq!(
        EditionDate::from_ccyymmdd("20260520"),
        EditionDate::new(2026, 5, 20)
    );
}

#[test]
fn ddmmyyyy_parses_real_rnc_dates() {
    assert_eq!(
        EditionDate::from_ddmmyyyy("01/06/2026"),
        EditionDate::new(2026, 6, 1)
    );
    assert_eq!(
        EditionDate::from_ddmmyyyy("05/01/2026"),
        EditionDate::new(2026, 1, 5)
    );
}

#[test]
fn malformed_input_is_unknown_not_a_panic() {
    assert_eq!(EditionDate::from_ccyymmdd(""), EditionDate::unknown());
    assert_eq!(
        EditionDate::from_ccyymmdd("2021120"),
        EditionDate::unknown()
    );
    assert_eq!(
        EditionDate::from_ccyymmdd("2021-12-09"),
        EditionDate::unknown()
    );
    assert_eq!(EditionDate::from_ddmmyyyy(""), EditionDate::unknown());
    assert_eq!(
        EditionDate::from_ddmmyyyy("01-06-2026"),
        EditionDate::unknown()
    );
    assert_eq!(EditionDate::from_ddmmyyyy("01/06"), EditionDate::unknown());
}

#[test]
fn unknown_sorts_oldest() {
    assert!(EditionDate::unknown() < EditionDate::new(1, 1, 1));
}

#[test]
fn newer_year_outranks_older_regardless_of_month_day() {
    assert!(EditionDate::new(2026, 1, 1) > EditionDate::new(2025, 12, 31));
}

#[test]
fn ddmmyyyy_takes_a_plus_sign_and_rejects_overflow() {
    assert_eq!(
        EditionDate::from_ddmmyyyy("+1/+02/+2026"),
        EditionDate::new(2026, 2, 1)
    );
    assert_eq!(
        EditionDate::from_ddmmyyyy("1/2/65536"),
        EditionDate::unknown()
    );
    assert_eq!(
        EditionDate::from_ddmmyyyy("256/2/2026"),
        EditionDate::unknown()
    );
    assert_eq!(
        EditionDate::from_ddmmyyyy("000001/2/2026"),
        EditionDate::new(2026, 2, 1)
    );
    assert_eq!(
        EditionDate::from_ddmmyyyy("1/2/2026/"),
        EditionDate::unknown()
    );
    assert_eq!(EditionDate::from_ddmmyyyy("+/2/2026"), EditionDate::unknown());
    assert_eq!(
        EditionDate::from_ddmmyyyy("\u{661}/2/2026"),
        EditionDate::unknown()
    );
}

#[test]
fn derived_order_agrees_with_the_operators() {
    let a = EditionDate::new(2025, 3, 4);
    let b = EditionDate::new(2025, 4, 1);
    assert!(a < b);
    assert_eq!(a.max(b), b);
    assert_eq!(EditionDate::default(), EditionDate::unknown());
}

#[test]
fn dates_of_one_key_are_equal() {
    assert_eq!(
        EditionDate::from_ccyymmdd("20240131"),
        EditionDate::new(2024, 1, 31)
    );
    assert_eq!(EditionDate::from_ccyymmdd("x"), EditionDate::unknown());
}
