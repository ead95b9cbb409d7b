use amar::clock::{fmt_ts, fmt_unix};

#[test]
fn epoch_and_known_instants() {
    assert_eq!(fmt_unix(0), "1970-01-01 00:00");
    assert_eq!(fmt_unix(1700000000), "2023-11-14 22:13");
    assert_eq!(fmt_ts(1700000000), "2023-11-14 22:13");
}

#[test]
fn leap_rules() {
    // 2000 is a leap year (divisible by 400) …
    assert_eq!(fmt_unix(951782400), "2000-02-29 00:00");
    // … 2100 is not (divisible by 100).
    assert_eq!(fmt_unix(4107542400 - 86400), "2100-02-28 00:00");
    assert_eq!(fmt_unix(4107542400), "2100-03-01 00:00");
}

#[test]
fn far_future_years_are_padded_or_widened() {
    assert_eq!(fmt_unix(253402300799), "9999-12-31 23:59");
    assert_eq!(fmt_ts(u64::MAX), "584554051223-11-09 07:00");
}
