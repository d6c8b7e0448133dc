use rust_recipes::advance::serialize_deserialize::{parse_us_date, UsDate};

#[test]
fn us_date_round_trip() {
    let d = UsDate::new(2026, 6, 15).ok().unwrap();
    assert_eq!(d.to_us_string(), "06/15/2026");
    let back = parse_us_date("06/15/2026").ok().unwrap();
    assert_eq!((back.year, back.month, back.day), (2026, 6, 15));
    let parsed = parse_us_date("12/25/2026").ok().unwrap();
    assert_eq!((parsed.year, parsed.month, parsed.day), (2026, 12, 25));
    assert_eq!(parsed.to_us_string(), "12/25/2026");
}

#[test]
fn us_date_rejects() {
    assert_eq!(UsDate::new(2026, 13, 1).err(), Some("Invalid date".to_string()));
    assert_eq!(UsDate::new(2026, 1, 0).err(), Some("Invalid date".to_string()));
    assert_eq!(parse_us_date("2026-06-15").err(), Some("expected MM/DD/YYYY, got 2026-06-15".to_string()));
    assert_eq!(parse_us_date("1/2/3/4").err(), Some("expected MM/DD/YYYY, got 1/2/3/4".to_string()));
    assert_eq!(parse_us_date("xx/15/2026").err(), Some("invalid month: invalid digit found in string".to_string()));
    assert_eq!(parse_us_date("06/300/2026").err(), Some("invalid day: number too large to fit in target type".to_string()));
    assert_eq!(parse_us_date("06/15/").err(), Some("invalid year: cannot parse integer from empty string".to_string()));
    assert_eq!(parse_us_date("00/15/2026").err(), Some("Invalid date".to_string()));
    let d = UsDate::new(7, 1, 9).ok().unwrap();
    assert_eq!(d.to_us_string(), "01/09/7");
}
