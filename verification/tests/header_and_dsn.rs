//! The file signature, the column descriptor block, and the connection
//! string.

use verticaextractor::column_type::ColumnType;
use verticaextractor::dsn::create_dsn;
use verticaextractor::file_format::{file_header, generate_column_definitions};
use verticaextractor::sql_data_type::SqlDataType;

fn col(data_type: SqlDataType, width: u16, precision: Option<u16>) -> ColumnType {
    ColumnType { name: "c".to_string(), data_type, width, precision, scale: None }
}

#[test]
fn magic_signature() {
    assert_eq!(
        file_header(),
        vec![0x4E, 0x41, 0x54, 0x49, 0x56, 0x45, 0x0A, 0xFF, 0x0D, 0x0A, 0x00]
    );
}

#[test]
fn header_for_one_integer_column() {
    let cols = vec![col(SqlDataType::Integer, 8, None)];
    assert_eq!(
        generate_column_definitions(&cols),
        vec![0x0C, 0, 0, 0, 0x01, 0, 0x00, 0x01, 0, 0x08, 0, 0, 0]
    );
}

#[test]
fn header_length_prefix_is_eight_plus_four_per_column() {
    for c in [0usize, 1, 2, 7] {
        let cols = vec![col(SqlDataType::Boolean, 1, None); c];
        let header = generate_column_definitions(&cols);
        let prefix = u32::from_le_bytes([header[0], header[1], header[2], header[3]]);
        assert_eq!(prefix as usize, 8 + 4 * c);
        assert_eq!(header.len(), 9 + 4 * c);
    }
}

#[test]
fn on_wire_width_table() {
    let expect = |ct: ColumnType, w: u32| {
        let header = generate_column_definitions(&vec![ct]);
        let bytes = &header[9..13];
        assert_eq!(u32::from_le_bytes([bytes[0], bytes[1], bytes[2], bytes[3]]), w);
    };
    expect(col(SqlDataType::Integer, 8, None), 8);
    expect(col(SqlDataType::Char, 3, None), 3);
    expect(col(SqlDataType::Binary, 5, None), 5);
    expect(col(SqlDataType::Varchar, 64, None), 0xFFFF_FFFF);
    expect(col(SqlDataType::Varbinary, 64, None), 0xFFFF_FFFF);
    expect(col(SqlDataType::Boolean, 1, None), 1);
    expect(col(SqlDataType::Float, 8, None), 8);
    expect(col(SqlDataType::Date, 8, None), 8);
    expect(col(SqlDataType::Timestamp, 8, None), 8);
    expect(col(SqlDataType::TimestampTz, 8, None), 8);
    expect(col(SqlDataType::Time, 8, None), 8);
    expect(col(SqlDataType::TimeTz, 8, None), 8);
    expect(col(SqlDataType::Interval, 8, None), 8);
    expect(col(SqlDataType::Numeric, 16, Some(19)), 16);
    expect(col(SqlDataType::Numeric, 24, Some(38)), 24);
    expect(col(SqlDataType::Numeric, 8, Some(18)), 8);
    expect(col(SqlDataType::Numeric, 16, None), 0);
}

#[test]
fn dsn_with_password() {
    assert_eq!(
        create_dsn(
            "localhost".to_string(),
            5433,
            "vmart".to_string(),
            "dbadmin".to_string(),
            Some("secret".to_string()),
        ),
        "Driver=Vertica;ServerName=localhost;Port=5433;Database=vmart;UID=dbadmin;PWD=secret"
    );
}

#[test]
fn dsn_without_password() {
    assert_eq!(
        create_dsn(
            "db.example".to_string(),
            10,
            "d".to_string(),
            "u".to_string(),
            None,
        ),
        "Driver=Vertica;ServerName=db.example;Port=10;Database=d;UID=u"
    );
}
