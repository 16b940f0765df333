//! NUMERIC cell encoding: scaling, limb layout, signs and failures.

use verticaextractor::column_type::ColumnType;
use verticaextractor::encoding::{encode_value, SqlValue};
use verticaextractor::errors::Errors;
use verticaextractor::numeric::{encode_numeric, negate};
use verticaextractor::sql_data_type::SqlDataType;

fn numeric_col(width: u16, precision: u16, scale: u16) -> ColumnType {
    ColumnType {
        name: "n".to_string(),
        data_type: SqlDataType::Numeric,
        width,
        precision: Some(precision),
        scale: Some(scale),
    }
}

fn text(s: &str) -> SqlValue {
    SqlValue::Text(s.as_bytes().to_vec())
}

#[test]
fn numeric_scales_and_reverses_limbs() {
    // precision 19, scale 2: width (19/19 + 1) * 8 = 16; "123" scales
    // to 12300 = 0x300C, left-padded big-endian, then each 8-byte limb
    // is emitted least significant byte first.
    let c = numeric_col(16, 19, 2);
    let mut expected = vec![0u8; 8];
    expected.extend_from_slice(&[0x0C, 0x30, 0, 0, 0, 0, 0, 0]);
    assert_eq!(encode_value(&text("123"), &c, 0), Ok(expected));
}

#[test]
fn numeric_zero_is_all_zero_bytes() {
    for (w, p, s) in [(16u16, 19u16, 2u16), (24, 38, 0), (8, 18, 7)] {
        assert_eq!(encode_value(&text("0"), &numeric_col(w, p, s), 0), Ok(vec![0u8; w as usize]));
        assert_eq!(
            encode_value(&text("-0"), &numeric_col(w, p, s), 0),
            Ok(vec![0u8; w as usize])
        );
    }
}

#[test]
fn numeric_positive_power_of_ten_round_trips() {
    // 10^18, the smallest 19-digit number, in a precision-19 column.
    let c = numeric_col(16, 19, 0);
    let unscaled: i128 = 1_000_000_000_000_000_000;
    let be = unscaled.to_be_bytes();
    let mut expected = Vec::new();
    for limb in 0..2 {
        for j in 0..8 {
            expected.push(be[limb * 8 + 7 - j]);
        }
    }
    let got = encode_value(&text("1000000000000000000"), &c, 0).unwrap();
    assert_eq!(got, expected);
    // Re-decode: un-reverse each limb and read big-endian.
    let mut back = [0u8; 16];
    for limb in 0..2 {
        for j in 0..8 {
            back[limb * 8 + j] = got[limb * 8 + 7 - j];
        }
    }
    assert_eq!(i128::from_be_bytes(back), unscaled);
}

#[test]
fn numeric_negative_power_of_ten_round_trips() {
    let c = numeric_col(16, 19, 0);
    let unscaled: i128 = -1_000_000_000_000_000_000;
    let be = unscaled.to_be_bytes();
    let mut expected = Vec::new();
    for limb in 0..2 {
        for j in 0..8 {
            expected.push(be[limb * 8 + 7 - j]);
        }
    }
    let got = encode_value(&text("-1000000000000000000"), &c, 0).unwrap();
    assert_eq!(got, expected);
    let mut back = [0u8; 16];
    for limb in 0..2 {
        for j in 0..8 {
            back[limb * 8 + j] = got[limb * 8 + 7 - j];
        }
    }
    assert_eq!(i128::from_be_bytes(back), unscaled);
}

#[test]
fn numeric_wide_negative_pads_with_ones() {
    // -1 in a 24-byte column: 16 bytes of two's complement, sign-extended
    // by 8 pad bytes of 0xFF, then limb-reversed; every byte is 0xFF.
    let c = numeric_col(24, 38, 0);
    assert_eq!(encode_value(&text("-1"), &c, 0), Ok(vec![0xFF; 24]));
}

#[test]
fn numeric_parse_failures() {
    let c = numeric_col(16, 19, 0);
    for bad in ["", "abc", "12a", "+", "-", "1.5", " 1"] {
        assert_eq!(encode_value(&text(bad), &c, 0), Err(Errors::NumericValueInvalid), "{bad}");
    }
    // One past the 128-bit range in either direction.
    assert_eq!(
        encode_value(&text("170141183460469231731687303715884105728"), &c, 0),
        Err(Errors::NumericValueInvalid)
    );
    assert_eq!(
        encode_value(&text("-170141183460469231731687303715884105729"), &c, 0),
        Err(Errors::NumericValueInvalid)
    );
}

#[test]
fn numeric_width_failures() {
    // A negative value's image spans all 16 bytes, which an 8-byte
    // column cannot hold.
    assert_eq!(
        encode_value(&text("-1"), &numeric_col(8, 18, 0), 0),
        Err(Errors::NumericValueTooWide)
    );
    // Scaling i128::MAX by one more digit leaves the 128-bit range.
    assert_eq!(
        encode_value(
            &text("170141183460469231731687303715884105727"),
            &numeric_col(24, 38, 1),
            0
        ),
        Err(Errors::NumericValueTooWide)
    );
    // A 9-byte magnitude cannot fit an 8-byte column.
    assert_eq!(
        encode_value(&text("18446744073709551616"), &numeric_col(8, 18, 0), 0),
        Err(Errors::NumericValueTooWide)
    );
}

#[test]
fn numeric_without_scale_defaults_to_zero() {
    let c = ColumnType {
        name: "n".to_string(),
        data_type: SqlDataType::Numeric,
        width: 8,
        precision: Some(18),
        scale: None,
    };
    assert_eq!(
        encode_value(&text("5"), &c, 0),
        Ok(vec![5, 0, 0, 0, 0, 0, 0, 0])
    );
}

#[test]
fn encode_numeric_directly() {
    assert_eq!(encode_numeric(&b"123".to_vec(), 8, 0), Ok(vec![123, 0, 0, 0, 0, 0, 0, 0]));
    // A width that is not a whole number of limbs drops the tail bytes.
    assert_eq!(encode_numeric(&b"1".to_vec(), 4, 0), Ok(Vec::new()));
}

#[test]
fn negate_flips_only_the_head() {
    let mut bytes = vec![0u8, 0, 5, 6];
    negate(&mut bytes, 2);
    assert_eq!(bytes, vec![0xFF, 0xFF, 5, 6]);
    let mut empty: Vec<u8> = Vec::new();
    negate(&mut empty, 0);
    assert_eq!(empty, Vec::<u8>::new());
}
