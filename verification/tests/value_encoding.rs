//! Per-type value encoding and whole-row assembly.

use verticaextractor::column_type::ColumnType;
use verticaextractor::encoding::{encode_value, SqlValue};
use verticaextractor::errors::Errors;
use verticaextractor::file_format::{create_nulls_bitmap, encode_row};
use verticaextractor::sql_data_type::SqlDataType;

fn col(data_type: SqlDataType, width: u16) -> ColumnType {
    ColumnType { name: "c".to_string(), data_type, width, precision: None, scale: None }
}

#[test]
fn integer_cell_is_eight_le_bytes() {
    let c = col(SqlDataType::Integer, 8);
    assert_eq!(
        encode_value(&SqlValue::Integer(1), &c, 0),
        Ok(vec![1, 0, 0, 0, 0, 0, 0, 0])
    );
    assert_eq!(
        encode_value(&SqlValue::Integer(-2), &c, 0),
        Ok((-2i64).to_le_bytes().to_vec())
    );
}

#[test]
fn float_cell_is_native_bit_layout() {
    let c = col(SqlDataType::Float, 8);
    let v = 1.5f64;
    assert_eq!(
        encode_value(&SqlValue::Float(v.to_bits()), &c, 0),
        Ok(v.to_le_bytes().to_vec())
    );
}

#[test]
fn boolean_cell_is_one_byte() {
    let c = col(SqlDataType::Boolean, 1);
    assert_eq!(encode_value(&SqlValue::Boolean(true), &c, 0), Ok(vec![1]));
    assert_eq!(encode_value(&SqlValue::Boolean(false), &c, 0), Ok(vec![0]));
}

#[test]
fn char_cell_has_no_length_prefix() {
    let c = col(SqlDataType::Char, 3);
    assert_eq!(
        encode_value(&SqlValue::Text(b"abc".to_vec()), &c, 0),
        Ok(b"abc".to_vec())
    );
}

#[test]
fn varchar_cell_is_length_prefixed() {
    let c = col(SqlDataType::Varchar, 64);
    assert_eq!(
        encode_value(&SqlValue::Text(b"hi".to_vec()), &c, 0),
        Ok(vec![2, 0, 0, 0, 0x68, 0x69])
    );
    assert_eq!(
        encode_value(&SqlValue::Text(Vec::new()), &c, 0),
        Ok(vec![0, 0, 0, 0])
    );
}

#[test]
fn binary_cells() {
    assert_eq!(
        encode_value(&SqlValue::Bytes(vec![1, 2]), &col(SqlDataType::Binary, 2), 0),
        Ok(vec![1, 2])
    );
    assert_eq!(
        encode_value(&SqlValue::Bytes(vec![1, 2]), &col(SqlDataType::Varbinary, 2), 0),
        Ok(vec![2, 0, 0, 0, 1, 2])
    );
    // Interval is a pass-through of the driver's raw representation.
    assert_eq!(
        encode_value(&SqlValue::Bytes(vec![9, 8, 7]), &col(SqlDataType::Interval, 8), 0),
        Ok(vec![9, 8, 7])
    );
}

#[test]
fn date_cells_count_days_from_epoch() {
    let c = col(SqlDataType::Date, 8);
    let epoch = SqlValue::Date { year: 2000, month: 1, day: 1 };
    assert_eq!(encode_value(&epoch, &c, 0), Ok(vec![0; 8]));
    let next = SqlValue::Date { year: 2000, month: 1, day: 2 };
    assert_eq!(encode_value(&next, &c, 0), Ok(1i64.to_le_bytes().to_vec()));
    let before = SqlValue::Date { year: 1999, month: 12, day: 31 };
    assert_eq!(encode_value(&before, &c, 0), Ok((-1i64).to_le_bytes().to_vec()));
    let leap = SqlValue::Date { year: 2000, month: 3, day: 1 };
    assert_eq!(encode_value(&leap, &c, 0), Ok(60i64.to_le_bytes().to_vec()));
}

#[test]
fn timestamp_cells_count_micros_from_epoch() {
    let c = col(SqlDataType::Timestamp, 8);
    let epoch = SqlValue::Timestamp {
        year: 2000,
        month: 1,
        day: 1,
        hour: 0,
        minute: 0,
        second: 0,
        fraction: 0,
    };
    assert_eq!(encode_value(&epoch, &c, 0), Ok(vec![0; 8]));
    let second = SqlValue::Timestamp {
        year: 2000,
        month: 1,
        day: 1,
        hour: 0,
        minute: 0,
        second: 1,
        fraction: 0,
    };
    assert_eq!(
        encode_value(&second, &c, 0),
        Ok(1_000_000i64.to_le_bytes().to_vec())
    );
    // Sub-microsecond nanoseconds are truncated.
    let nanos = SqlValue::Timestamp {
        year: 2000,
        month: 1,
        day: 1,
        hour: 0,
        minute: 0,
        second: 0,
        fraction: 1500,
    };
    assert_eq!(encode_value(&nanos, &c, 0), Ok(1i64.to_le_bytes().to_vec()));
    // TimestampTz encodes the same way.
    let tzc = col(SqlDataType::TimestampTz, 8);
    assert_eq!(
        encode_value(&second, &tzc, 0),
        Ok(1_000_000i64.to_le_bytes().to_vec())
    );
}

#[test]
fn timestamp_leap_second_fraction_matches_chrono() {
    // A fraction of a billion nanoseconds and more stands for a leap
    // second, which only second 59 can carry.
    let c = col(SqlDataType::Timestamp, 8);
    let leap = SqlValue::Timestamp {
        year: 2000,
        month: 1,
        day: 1,
        hour: 0,
        minute: 0,
        second: 59,
        fraction: 1_500_000_000,
    };
    let a = chrono::NaiveDate::from_ymd_opt(2000, 1, 1)
        .unwrap()
        .and_hms_nano_opt(0, 0, 59, 1_500_000_000)
        .unwrap();
    let b = chrono::NaiveDate::from_ymd_opt(2000, 1, 1)
        .unwrap()
        .and_hms_nano_opt(0, 0, 0, 0)
        .unwrap();
    let expected = (a - b).num_microseconds().unwrap();
    assert_eq!(encode_value(&leap, &c, 0), Ok(expected.to_le_bytes().to_vec()));
}

#[test]
fn time_cell_counts_micros_from_midnight() {
    let c = col(SqlDataType::Time, 8);
    let t = SqlValue::Time { hour: 1, minute: 2, second: 3 };
    let micros = (3600 + 120 + 3) as i64 * 1_000_000;
    assert_eq!(encode_value(&t, &c, 0), Ok(micros.to_le_bytes().to_vec()));
}

#[test]
fn timetz_cell_packs_micros_and_offset() {
    let c = col(SqlDataType::TimeTz, 8);
    // 01:00:00 as the driver's u16 little-endian triple.
    let raw = SqlValue::Bytes(vec![1, 0, 0, 0, 0, 0]);
    let offset = 3600i64;
    let expected = ((3_600_000_000i64) << 24) + offset + 86400;
    assert_eq!(
        encode_value(&raw, &c, offset),
        Ok(expected.to_le_bytes().to_vec())
    );
}

#[test]
fn mismatched_value_is_an_error() {
    assert_eq!(
        encode_value(&SqlValue::Integer(1), &col(SqlDataType::Varchar, 8), 0),
        Err(Errors::ValueTypeMismatch)
    );
    assert_eq!(
        encode_value(&SqlValue::Text(b"x".to_vec()), &col(SqlDataType::Date, 8), 0),
        Err(Errors::ValueTypeMismatch)
    );
}

#[test]
fn null_cells_encode_to_nothing() {
    for t in [SqlDataType::Integer, SqlDataType::Varchar, SqlDataType::Numeric] {
        assert_eq!(encode_value(&SqlValue::Null, &col(t, 8), 0), Ok(Vec::new()));
    }
}

#[test]
fn row_with_one_integer() {
    let values = vec![SqlValue::Integer(1)];
    let cols = vec![col(SqlDataType::Integer, 8)];
    assert_eq!(
        encode_row(&values, &cols, 0),
        Ok(vec![0x09, 0, 0, 0, 0x00, 1, 0, 0, 0, 0, 0, 0, 0])
    );
}

#[test]
fn row_with_one_varchar() {
    let values = vec![SqlValue::Text(b"hi".to_vec())];
    let cols = vec![col(SqlDataType::Varchar, 64)];
    assert_eq!(
        encode_row(&values, &cols, 0),
        Ok(vec![0x07, 0, 0, 0, 0x00, 0x02, 0, 0, 0, 0x68, 0x69])
    );
}

#[test]
fn row_with_one_boolean_null() {
    let values = vec![SqlValue::Null];
    let cols = vec![col(SqlDataType::Boolean, 1)];
    assert_eq!(encode_row(&values, &cols, 0), Ok(vec![0x01, 0, 0, 0, 0x80]));
}

#[test]
fn row_mixes_nulls_and_values() {
    let values = vec![
        SqlValue::Integer(7),
        SqlValue::Null,
        SqlValue::Text(b"ok".to_vec()),
    ];
    let cols = vec![
        col(SqlDataType::Integer, 8),
        col(SqlDataType::Float, 8),
        col(SqlDataType::Varchar, 64),
    ];
    let mut expected = vec![15, 0, 0, 0];
    expected.push(0x40);
    expected.extend_from_slice(&7i64.to_le_bytes());
    expected.extend_from_slice(&[2, 0, 0, 0, 0x6F, 0x6B]);
    assert_eq!(encode_row(&values, &cols, 0), Ok(expected));
}

#[test]
fn row_error_is_the_first_failing_cell() {
    let values = vec![
        SqlValue::Text(b"abc".to_vec()),
        SqlValue::Integer(1),
    ];
    let cols = vec![
        col(SqlDataType::Numeric, 16),
        col(SqlDataType::Varchar, 8),
    ];
    assert_eq!(
        encode_row(&values, &cols, 0),
        Err(Errors::NumericValueInvalid)
    );
}

#[test]
fn bitmap_boundaries() {
    assert_eq!(create_nulls_bitmap(&vec![]), Vec::<u8>::new());
    assert_eq!(create_nulls_bitmap(&vec![false]), vec![0x00]);
    assert_eq!(create_nulls_bitmap(&vec![true]), vec![0x80]);
    assert_eq!(create_nulls_bitmap(&vec![false; 8]), vec![0x00]);
    assert_eq!(create_nulls_bitmap(&vec![true; 8]), vec![0xFF]);
    let mut nine = vec![false; 9];
    nine[8] = true;
    assert_eq!(create_nulls_bitmap(&nine), vec![0x00, 0x80]);
    assert_eq!(create_nulls_bitmap(&vec![true; 9]), vec![0xFF, 0x80]);
    assert_eq!(
        create_nulls_bitmap(&vec![true, false, true]),
        vec![0xA0]
    );
}
