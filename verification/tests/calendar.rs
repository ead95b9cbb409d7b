use amar::calendar::{month_color, special_day, AmarDate, DAYS_PER_YEAR, parse_amar_date, parse_u32};

#[test]
fn day_one_is_recolar_inielina_cal_amae() {
    let d = AmarDate::from_ymd(354, 1, 1);
    assert_eq!(d.day_name(), "Recolar");
    assert_eq!(d.week_name(), "InIelina");
    assert_eq!(d.month_name(), "Cal Amae");
    assert_eq!(d.day_of_month(), 1);
}

#[test]
fn day_28_is_in_week_4() {
    let d = AmarDate::from_ymd(354, 1, 28);
    assert_eq!(d.week_name(), "DeIelina");
    assert_eq!(d.day_of_month(), 28);
}

#[test]
fn header_short_form_is_day_month_year() {
    let d = AmarDate::from_ymd(354, 6, 15);
    assert_eq!(d.fmt_header(), "15 Juba, Year 354");
}

#[test]
fn long_form_keeps_day_and_week_names() {
    let d = AmarDate::from_ymd(354, 6, 28);
    assert_eq!(d.day_name(), "Liandra");
    assert_eq!(d.week_name(), "DeIelina");
    assert_eq!(d.month_name(), "Juba");
    assert_eq!(d.fmt_long(), "Liandra, DeIelina (28) Juba, Year 354");
}

#[test]
fn advance_wraps_year() {
    let d = AmarDate::from_ymd(354, 13, 28);
    let next = d.advance(1);
    assert_eq!(next.year, 355);
    assert_eq!(next.day_of_year, 0);
}

#[test]
fn advance_negative_wraps_back() {
    let d = AmarDate::from_ymd(354, 1, 1);
    let prev = d.advance(-1);
    assert_eq!(prev.year, 353);
    assert_eq!(prev.day_of_year, DAYS_PER_YEAR - 1);
}

#[test]
fn from_ymd_clamps_out_of_range_parts() {
    let d = AmarDate::from_ymd(10, 0, 40);
    assert_eq!(d.month(), 1);
    assert_eq!(d.day_of_month(), 28);
    let d = AmarDate::from_ymd(10, 99, 0);
    assert_eq!(d.month(), 13);
    assert_eq!(d.day_of_month(), 1);
}

#[test]
fn advance_round_trip_and_composition() {
    let d = AmarDate::from_ymd(354, 7, 19);
    assert_eq!(d.advance(1000).advance(-1000), d);
    assert_eq!(d.advance(400).advance(-30), d.advance(370));
    assert_eq!(d.advance(0), d);
}

#[test]
fn every_month_starts_on_recolar() {
    for m in 1..=13 {
        let d = AmarDate::from_ymd(354, m, 1);
        assert_eq!(d.day_of_week(), 1);
        assert_eq!(d.day_name(), "Recolar");
        assert_eq!(d.month(), m);
    }
}

#[test]
fn month_colours_and_special_days() {
    assert_eq!(month_color(1), 231);
    assert_eq!(month_color(6), 202);
    assert_eq!(month_color(0), 231);
    assert_eq!(month_color(99), 240);
    let s = special_day(7, 15).expect("Ikalio's day");
    assert_eq!(s.god, "Ikalio");
    assert_eq!(s.power, "Fire Magick");
    assert!(special_day(7, 16).is_none());
    let d = AmarDate::from_ymd(354, 13, 28);
    assert_eq!(d.special_day().map(|s| s.god), Some("Ielina"));
    assert_eq!(AmarDate::default(), AmarDate::new(354, 0));
}

#[test]
fn parse_dates_by_number_or_name() {
    let d = parse_amar_date("6 15", 354).unwrap();
    assert_eq!((d.year, d.month(), d.day_of_month()), (354, 6, 15));
    let d = parse_amar_date("  juba   28 ", 354).unwrap();
    assert_eq!((d.month(), d.day_of_month()), (6, 28));
    let d = parse_amar_date("MAN 3", 1).unwrap();
    assert_eq!(d.month_name(), "Man Peggon");
    // Numbers are clamped by the calendar.
    let d = parse_amar_date("+20 40", 1).unwrap();
    assert_eq!((d.month(), d.day_of_month()), (13, 28));
    assert!(parse_amar_date("juba", 1).is_none());
    assert!(parse_amar_date("zzz 3", 1).is_none());
    assert!(parse_amar_date("6 x", 1).is_none());
    assert!(parse_amar_date("6 99999999999", 1).is_none());
}

#[test]
fn u32_parsing() {
    assert_eq!(parse_u32("42"), Some(42));
    assert_eq!(parse_u32("+7"), Some(7));
    assert_eq!(parse_u32("4294967295"), Some(4294967295));
    assert_eq!(parse_u32("4294967296"), None);
    assert_eq!(parse_u32("-1"), None);
    assert_eq!(parse_u32("+"), None);
    assert_eq!(parse_u32(""), None);
}
