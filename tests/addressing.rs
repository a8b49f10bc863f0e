use excel_extract::address::{address_to_row_col, AddressError};
use excel_extract::datetime::{datetime_from_civil, serial_to_datetime, DateError};

#[test]
fn address_examples() {
    assert_eq!(address_to_row_col("A1"), Ok((0, 0)));
    assert_eq!(address_to_row_col("B2"), Ok((1, 1)));
    assert_eq!(address_to_row_col("Z1"), Ok((0, 25)));
    assert_eq!(address_to_row_col("AA1"), Ok((0, 26)));
}

#[test]
fn address_longer_runs() {
    assert_eq!(address_to_row_col("AB12"), Ok((11, 27)));
    assert_eq!(address_to_row_col("AZ100"), Ok((99, 51)));
    assert_eq!(address_to_row_col("BA1"), Ok((0, 52)));
    assert_eq!(address_to_row_col("b2"), Ok((1, 1)));
    assert_eq!(address_to_row_col("A007"), Ok((6, 0)));
}

#[test]
fn address_without_digit_is_invalid_format() {
    assert_eq!(address_to_row_col("ABC"), Err(AddressError::InvalidFormat));
    assert_eq!(address_to_row_col(""), Err(AddressError::InvalidFormat));
}

#[test]
fn address_bad_column() {
    assert_eq!(address_to_row_col("12"), Err(AddressError::InvalidColumn));
    assert_eq!(address_to_row_col("A$1"), Err(AddressError::InvalidColumn));
    assert_eq!(address_to_row_col("ZZZZZZZZ1"), Err(AddressError::InvalidColumn));
}

#[test]
fn address_bad_row() {
    assert_eq!(address_to_row_col("A1B"), Err(AddressError::InvalidRow));
    assert_eq!(address_to_row_col("A0"), Err(AddressError::InvalidRow));
    assert_eq!(address_to_row_col("A4294967296"), Err(AddressError::InvalidRow));
    assert_eq!(address_to_row_col("A4294967295"), Ok((4294967294, 0)));
}

fn column_label(mut n: u32) -> String {
    let mut out = Vec::new();
    while n > 0 {
        n -= 1;
        out.push((b'A' + (n % 26) as u8) as char);
        n /= 26;
    }
    out.iter().rev().collect()
}

#[test]
fn address_round_trip() {
    for text in ["A1", "Z26", "AA1", "AZ9", "ZZ100", "XFD1048576", "AAA7"] {
        let (row, col) = address_to_row_col(text).unwrap();
        assert_eq!(format!("{}{}", column_label(col + 1), row + 1), text);
    }
}

#[test]
fn serial_one_is_day_after_epoch() {
    assert_eq!(serial_to_datetime(1, 0), Ok("1899-12-31 00:00:00".to_string()));
}

#[test]
fn serial_midday() {
    assert_eq!(serial_to_datetime(44927, 43200), Ok("2023-01-01 12:00:00".to_string()));
}

#[test]
fn serial_seconds_carry_into_next_day() {
    assert_eq!(serial_to_datetime(0, 86399), Ok("1899-12-30 23:59:59".to_string()));
    assert_eq!(serial_to_datetime(0, 86400), Ok("1899-12-31 00:00:00".to_string()));
}

#[test]
fn serial_far_dates() {
    assert_eq!(serial_to_datetime(-693593, 0), Ok("0001-01-01 00:00:00".to_string()));
    assert_eq!(serial_to_datetime(60, 3661), Ok("1900-02-28 01:01:01".to_string()));
    assert_eq!(serial_to_datetime(i64::MAX, 0), Err(DateError::DateOutOfRange));
    assert_eq!(serial_to_datetime(-2_000_000_000, 0), Err(DateError::DateOutOfRange));
    assert_eq!(serial_to_datetime(200_000_000, 0), Err(DateError::DateOutOfRange));
}

#[test]
fn civil_rendering() {
    assert_eq!(datetime_from_civil(Some((10000, 1, 1)), 0), Ok("+10000-01-01 00:00:00".to_string()));
    assert_eq!(datetime_from_civil(Some((-5, 3, 4)), 3661), Ok("-0005-03-04 01:01:01".to_string()));
    assert_eq!(datetime_from_civil(Some((987, 11, 9)), 86399), Ok("0987-11-09 23:59:59".to_string()));
    assert_eq!(datetime_from_civil(None, 0), Err(DateError::DateOutOfRange));
}
