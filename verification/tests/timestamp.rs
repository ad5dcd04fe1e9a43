use paclog::timestamp::{parse_dt, Dt};

#[test]
fn parses_bracketed_timestamp_exactly() {
    let dt = parse_dt("[2023-06-30T02:12:34+0200]").unwrap();
    assert_eq!(dt, Dt { year: 2023, month: 6, day: 30, hour: 2 });
}

#[test]
fn ignores_the_utc_offset() {
    // the hour is taken as written, never shifted by the offset
    let a = parse_dt("[2023-06-30T02:12:34+0200]").unwrap();
    let b = parse_dt("[2023-06-30T02:12:34-0700]").unwrap();
    assert_eq!(a.hour, 2);
    assert_eq!(b.hour, 2);
}

#[test]
fn rejects_short_tokens() {
    assert!(parse_dt("").is_none());
    assert!(parse_dt("[2023-06-30").is_none());
    assert!(parse_dt("[2023-06-3").is_none());
}

#[test]
fn rejects_non_numeric_fields() {
    assert!(parse_dt("[20x3-06-30T02:12:34+0200]").is_none());
    assert!(parse_dt("[2023-ab-30T02:12:34+0200]").is_none());
    assert!(parse_dt("[2023-06-xxT02:12:34+0200]").is_none());
    assert!(parse_dt("[2023-06-30Txx:12:34+0200]").is_none());
}

#[test]
fn accepts_a_leading_plus_sign() {
    // a fixed-width field is still a valid integer with a plus sign
    let dt = parse_dt("[+999-06-30T02:12:34+0200]").unwrap();
    assert_eq!(dt.year, 999);
}

#[test]
fn reads_fixed_offsets_not_separators() {
    // only the four fixed-width fields are read; separators are not checked
    let dt = parse_dt("[1999_12_31x23:59:59+0000]").unwrap();
    assert_eq!(dt, Dt { year: 1999, month: 12, day: 31, hour: 23 });
}
