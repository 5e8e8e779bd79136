use wpic::calendar::{civil_from_days, fmt_date, fmt_date_time, fmt_time};
use wpic::naming::{desc_part, named};

#[test]
fn days_are_dates() {
    assert_eq!(civil_from_days(0), (1970, 1, 1));
    assert_eq!(civil_from_days(-1), (1969, 12, 31));
    assert_eq!(civil_from_days(11016), (2000, 2, 29));
    assert_eq!(civil_from_days(11017), (2000, 3, 1));
    assert_eq!(civil_from_days(-719468), (0, 3, 1));
    assert_eq!(civil_from_days(-719469), (0, 2, 29));
    assert_eq!(civil_from_days(19782), (2024, 2, 29));
    assert_eq!(civil_from_days(47541), (2100, 3, 1));
}

#[test]
fn every_day_follows_the_one_before() {
    let months = [31, 28, 31, 30, 31, 30, 31, 31, 30, 31, 30, 31];
    let (mut y, mut m, mut d) = civil_from_days(-200_000);
    for z in -199_999..200_000i64 {
        let leap = y % 4 == 0 && (y % 100 != 0 || y % 400 == 0);
        let last = if m == 2 && leap { 29 } else { months[(m - 1) as usize] };
        if d < last {
            d += 1;
        } else {
            d = 1;
            if m < 12 {
                m += 1;
            } else {
                m = 1;
                y += 1;
            }
        }
        assert_eq!(civil_from_days(z), (y, m, d));
    }
}

#[test]
fn times_are_local() {
    let secs = 1_700_000_000;
    assert_eq!(fmt_date_time(secs, 0), ("2023-11-14".to_string(), "22:13".to_string()));
    assert_eq!(fmt_date_time(secs, 7200), ("2023-11-15".to_string(), "00:13".to_string()));
    assert_eq!(fmt_date(-1, 0), "1969-12-31");
    assert_eq!(fmt_time(-1, 0), "23:59");
    assert_eq!(fmt_time(59, 60), "00:01");
}

#[test]
fn the_description_stands_behind_the_date() {
    assert_eq!(desc_part("2024-05-01 Picnic"), "Picnic");
    assert_eq!(desc_part("2024-05-01 "), "");
    assert_eq!(desc_part("2024-05-01"), "2024-05-01");
    assert_eq!(desc_part("Holiday"), "Holiday");
    assert_eq!(desc_part("0123456789 ü"), "ü");
    assert_eq!(desc_part("ääääx xxxxx"), "ääääx xxxxx");
    assert_eq!(desc_part("äääää x"), "x");
    assert_eq!(desc_part(""), "");
}

#[test]
fn a_date_alone_is_no_name() {
    assert!(!named("2024-05-01 "));
    assert!(!named("2024-05-01   \t"));
    assert!(named("2024-05-01"));
    assert!(named("2024-05-01 x"));
    assert!(!named(""));
    assert!(!named("   "));
}
