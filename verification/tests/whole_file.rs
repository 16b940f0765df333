//! A whole small export, assembled the way the writer does: signature,
//! column descriptor block, then one encoded row per table row.

use verticaextractor::column_type::ColumnType;
use verticaextractor::encoding::SqlValue;
use verticaextractor::file_format::{encode_row, file_header, generate_column_definitions};
use verticaextractor::sql_data_type::SqlDataType;

fn col(name: &str, data_type: SqlDataType, width: u16) -> ColumnType {
    ColumnType { name: name.to_string(), data_type, width, precision: None, scale: None }
}

#[test]
fn two_column_two_row_file() {
    let cols = vec![
        col("id", SqlDataType::Integer, 8),
        col("note", SqlDataType::Varchar, 64),
    ];

    let mut file: Vec<u8> = Vec::new();
    file.extend_from_slice(&file_header());
    file.extend_from_slice(&generate_column_definitions(&cols));

    let rows = vec![
        vec![SqlValue::Integer(513), SqlValue::Text(b"ab".to_vec())],
        vec![SqlValue::Integer(-1), SqlValue::Null],
    ];
    for row in &rows {
        file.extend_from_slice(&encode_row(row, &cols, 0).unwrap());
    }

    let mut expected: Vec<u8> = Vec::new();
    // Signature.
    expected.extend_from_slice(&[0x4E, 0x41, 0x54, 0x49, 0x56, 0x45, 0x0A, 0xFF, 0x0D, 0x0A, 0x00]);
    // Descriptor block: length 8 + 4*2, version 1, filler, two columns,
    // width 8, then the variable-width marker.
    expected.extend_from_slice(&[0x10, 0, 0, 0, 0x01, 0, 0x00, 0x02, 0]);
    expected.extend_from_slice(&[0x08, 0, 0, 0, 0xFF, 0xFF, 0xFF, 0xFF]);
    // First row: 1 bitmap byte + 8 + (4 + 2) payload bytes.
    expected.extend_from_slice(&[0x0F, 0, 0, 0, 0x00]);
    expected.extend_from_slice(&513i64.to_le_bytes());
    expected.extend_from_slice(&[0x02, 0, 0, 0, 0x61, 0x62]);
    // Second row: the varchar is null.
    expected.extend_from_slice(&[0x09, 0, 0, 0, 0x40]);
    expected.extend_from_slice(&(-1i64).to_le_bytes());

    assert_eq!(file, expected);
}

#[test]
fn nine_column_row_uses_two_bitmap_bytes() {
    let cols: Vec<ColumnType> = (0..9)
        .map(|i| col(&format!("b{i}"), SqlDataType::Boolean, 1))
        .collect();
    let mut values: Vec<SqlValue> = (0..8).map(|_| SqlValue::Boolean(true)).collect();
    values.push(SqlValue::Null);
    // 2 bitmap bytes + 8 one-byte booleans; the ninth cell is null.
    let mut expected = vec![0x0A, 0, 0, 0, 0x00, 0x80];
    expected.extend_from_slice(&[1; 8]);
    assert_eq!(encode_row(&values, &cols, 0), Ok(expected));
}
