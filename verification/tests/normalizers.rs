use txn_encoder::feature::{Error, Feat};
use txn_encoder::normalize::{normalize_currency, normalize_date, normalize_input, normalize_string};
use txn_encoder::entry::Entry;

fn s(t: &str) -> String {
    t.to_string()
}

#[test]
fn date_valid_components() {
    let v = normalize_date("01-02-2020").unwrap();
    assert_eq!(v.len(), 3);
    assert_eq!(v[0], Feat { num: 0, den: 30 });
    assert_eq!(v[1], Feat { num: 1, den: 11 });
    assert_eq!(v[2], Feat { num: 50, den: 70 });
    assert_eq!(v[0].num as f64 / v[0].den as f64, 0.0);
    assert_eq!(v[1].num as f64 / v[1].den as f64, (2.0 - 1.0) / (12.0 - 1.0));
    assert_eq!(v[2].num as f64 / v[2].den as f64, (2020.0 - 1970.0) / (2040.0 - 1970.0));
}

#[test]
fn date_lower_bounds() {
    let v = normalize_date("1-1-1970").unwrap();
    assert_eq!(v[0], Feat { num: 0, den: 30 });
    assert_eq!(v[1], Feat { num: 0, den: 11 });
    assert_eq!(v[2], Feat { num: 0, den: 70 });
}

#[test]
fn date_no_calendar_check() {
    // Day 31 in February is accepted: components are only parsed, not
    // validated against a calendar.
    let v = normalize_date("31-02-2021").unwrap();
    assert_eq!(v[0], Feat { num: 30, den: 30 });
}

#[test]
fn date_extra_components_ignored() {
    let v = normalize_date("01-02-2020-junk").unwrap();
    assert_eq!(v[2], Feat { num: 50, den: 70 });
}

#[test]
fn date_malformed() {
    assert_eq!(normalize_date(""), Err(Error::ParseError));
    assert_eq!(normalize_date("01-02"), Err(Error::ParseError));
    assert_eq!(normalize_date("aa-02-2020"), Err(Error::ParseError));
    assert_eq!(normalize_date("01-x2-2020"), Err(Error::ParseError));
    assert_eq!(normalize_date("01-02-"), Err(Error::ParseError));
    assert_eq!(normalize_date("--"), Err(Error::ParseError));
}

#[test]
fn text_upper_cases_and_pads() {
    let v = normalize_string("ab", 5).unwrap();
    assert_eq!(v.len(), 5);
    // 'a' -> 'A' (65), 'b' -> 'B' (66), against [48, 90].
    assert_eq!(v[0], Feat { num: 17, den: 42 });
    assert_eq!(v[1], Feat { num: 18, den: 42 });
    assert_eq!(v[2], Feat { num: -1, den: 1 });
    assert_eq!(v[3], Feat { num: -1, den: 1 });
    assert_eq!(v[4], Feat { num: -1, den: 1 });
    for f in v.iter().take(2) {
        let x = f.num as f64 / f.den as f64;
        assert!((0.0..=1.0).contains(&x));
    }
}

#[test]
fn text_empty_is_all_sentinels() {
    let v = normalize_string("", 21).unwrap();
    assert_eq!(v.len(), 21);
    assert!(v.iter().all(|f| *f == Feat { num: -1, den: 1 }));
}

#[test]
fn text_full_width_is_accepted() {
    let v = normalize_string("ABCDEFGHIJKLMNOPQRSTU", 21).unwrap();
    assert_eq!(v.len(), 21);
    assert_eq!(v[20], Feat { num: 85 - 48, den: 42 });
}

#[test]
fn text_too_long_is_refused() {
    assert_eq!(normalize_string("ABCDEFGHIJKLMNOPQRSTUV", 21), Err(Error::InvariantViolation));
}

#[test]
fn currency_empty_is_sentinel() {
    let v = normalize_currency("").unwrap();
    assert_eq!(v.len(), 1);
    assert_eq!(v[0], Feat { num: -1, den: 1 });
    assert_eq!(v[0].num as f64 / v[0].den as f64, -1.0);
}

#[test]
fn currency_thousands_and_comma() {
    let v = normalize_currency("1.234,56").unwrap();
    assert_eq!(v.len(), 1);
    assert_eq!(v[0], Feat { num: 123456, den: 100 });
    assert_eq!(v[0].num as f64 / v[0].den as f64, 1234.56);
}

#[test]
fn currency_plain_comma() {
    let v = normalize_currency("12,5").unwrap();
    assert_eq!(v[0], Feat { num: 125, den: 10 });
    assert_eq!(v[0].num as f64 / v[0].den as f64, 12.5);
}

#[test]
fn currency_integer_only() {
    let v = normalize_currency("12").unwrap();
    assert_eq!(v[0], Feat { num: 12, den: 1 });
}

#[test]
fn currency_trailing_period_is_stripped() {
    // "12." loses its period before parsing, like any thousands separator.
    let v = normalize_currency("12.").unwrap();
    assert_eq!(v[0], Feat { num: 12, den: 1 });
}

#[test]
fn currency_negative() {
    let v = normalize_currency("-5,25").unwrap();
    assert_eq!(v[0], Feat { num: -525, den: 100 });
    assert_eq!(v[0].num as f64 / v[0].den as f64, -5.25);
}

#[test]
fn currency_malformed() {
    assert_eq!(normalize_currency("abc"), Err(Error::ParseError));
    assert_eq!(normalize_currency("12,3,4"), Err(Error::ParseError));
    assert_eq!(normalize_currency(","), Err(Error::ParseError));
    assert_eq!(normalize_currency("-"), Err(Error::ParseError));
    assert_eq!(normalize_currency("."), Err(Error::ParseError));
    assert_eq!(normalize_currency("1 2"), Err(Error::ParseError));
}

#[test]
fn input_is_29_wide() {
    let e = Entry::new(
        s("01-02-2020"),
        s("03-02-2020"),
        s("Groceries"),
        s("23,10"),
        s(""),
        s("FOOD"),
    );
    let v = normalize_input(&e).unwrap();
    assert_eq!(v.len(), 29);
    // Movement date, value date, description, debit, credit, in order.
    assert_eq!(v[0], Feat { num: 0, den: 30 });
    assert_eq!(v[3], Feat { num: 2, den: 30 });
    assert_eq!(v[6], Feat { num: 'G' as i64 - 48, den: 42 });
    assert_eq!(v[27], Feat { num: 2310, den: 100 });
    assert_eq!(v[28], Feat { num: -1, den: 1 });
}

#[test]
fn input_reports_first_failing_field() {
    let long = "ABCDEFGHIJKLMNOPQRSTUV";
    let bad_date = Entry::new(s("nope"), s("01-02-2020"), s("X"), s(""), s(""), s("A"));
    assert_eq!(normalize_input(&bad_date), Err(Error::ParseError));
    let long_desc = Entry::new(s("01-02-2020"), s("01-02-2020"), s(long), s(""), s(""), s("A"));
    assert_eq!(normalize_input(&long_desc), Err(Error::InvariantViolation));
    let bad_credit = Entry::new(s("01-02-2020"), s("01-02-2020"), s("X"), s(""), s("x"), s("A"));
    assert_eq!(normalize_input(&bad_credit), Err(Error::ParseError));
}
