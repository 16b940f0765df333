//! The SQL-type lexicon and the column model built on it.

use verticaextractor::column_type::{column_types_from_rows, parse_u16, ColumnType};
use verticaextractor::errors::Errors;
use verticaextractor::sql_data_type::{strip_parens, SqlDataType};

fn classify(s: &str) -> Result<SqlDataType, Errors> {
    SqlDataType::from_string(s)
}

#[test]
fn classify_plain_tokens() {
    assert_eq!(classify("int"), Ok(SqlDataType::Integer));
    assert_eq!(classify("float"), Ok(SqlDataType::Float));
    assert_eq!(classify("char"), Ok(SqlDataType::Char));
    assert_eq!(classify("varchar"), Ok(SqlDataType::Varchar));
    assert_eq!(classify("boolean"), Ok(SqlDataType::Boolean));
    assert_eq!(classify("date"), Ok(SqlDataType::Date));
    assert_eq!(classify("timestamp"), Ok(SqlDataType::Timestamp));
    assert_eq!(classify("timestamptz"), Ok(SqlDataType::TimestampTz));
    assert_eq!(classify("time"), Ok(SqlDataType::Time));
    assert_eq!(classify("timetz"), Ok(SqlDataType::TimeTz));
    assert_eq!(classify("varbinary"), Ok(SqlDataType::Varbinary));
    assert_eq!(classify("binary"), Ok(SqlDataType::Binary));
    assert_eq!(classify("numeric"), Ok(SqlDataType::Numeric));
    assert_eq!(classify("interval"), Ok(SqlDataType::Interval));
}

#[test]
fn classify_strips_parameters_and_case() {
    assert_eq!(classify("varchar(64)"), Ok(SqlDataType::Varchar));
    assert_eq!(classify("numeric(38,10)"), Ok(SqlDataType::Numeric));
    assert_eq!(classify("CHAR(3)"), Ok(SqlDataType::Char));
    assert_eq!(classify("TIMESTAMPTZ"), Ok(SqlDataType::TimestampTz));
    assert_eq!(classify("Interval"), Ok(SqlDataType::Interval));
}

#[test]
fn classify_rejects_unknown_tokens() {
    assert_eq!(classify("uuid"), Err(Errors::UnknownDataType));
    assert_eq!(classify(""), Err(Errors::UnknownDataType));
    assert_eq!(classify("in t"), Err(Errors::UnknownDataType));
}

#[test]
fn strip_parens_removes_first_region() {
    assert_eq!(strip_parens("numeric(38,10)"), "numeric");
    assert_eq!(strip_parens("int"), "int");
    assert_eq!(strip_parens("a(b)c"), "ac");
    assert_eq!(strip_parens("a(b"), "a(b");
    assert_eq!(strip_parens("a)b"), "a)b");
}

#[test]
fn classify_stable_under_second_strip() {
    for s in ["int(1)", "varchar(64)", "numeric(38,10)", "time", "x(y)"] {
        let once = strip_parens(s);
        let twice = strip_parens(&once);
        assert_eq!(classify(&twice).ok(), classify(&once).ok());
    }
}

#[test]
fn parse_u16_accepts_decimals() {
    assert_eq!(parse_u16("0"), Some(0));
    assert_eq!(parse_u16("8"), Some(8));
    assert_eq!(parse_u16("65535"), Some(65535));
    assert_eq!(parse_u16("+12"), Some(12));
    assert_eq!(parse_u16("007"), Some(7));
}

#[test]
fn parse_u16_rejects_bad_inputs() {
    assert_eq!(parse_u16(""), None);
    assert_eq!(parse_u16("+"), None);
    assert_eq!(parse_u16("-1"), None);
    assert_eq!(parse_u16("65536"), None);
    assert_eq!(parse_u16("99999999999"), None);
    assert_eq!(parse_u16("1a"), None);
}

fn meta(vals: [&str; 7]) -> Vec<String> {
    vals.iter().map(|s| s.to_string()).collect()
}

#[test]
fn column_from_metadata_fields() {
    let ct = ColumnType::new(&meta(["c1", "int", "8", "", "", "", ""])).unwrap();
    assert_eq!(ct.name, "c1");
    assert_eq!(ct.data_type, SqlDataType::Integer);
    assert_eq!(ct.width, 8);
    assert_eq!(ct.precision, None);
    assert_eq!(ct.scale, None);

    let ct = ColumnType::new(&meta(["n", "numeric(19,2)", "16", "19", "2", "", ""])).unwrap();
    assert_eq!(ct.data_type, SqlDataType::Numeric);
    assert_eq!(ct.width, 16);
    assert_eq!(ct.precision, Some(19));
    assert_eq!(ct.scale, Some(2));
}

#[test]
fn column_precision_falls_back_across_fields() {
    let ct = ColumnType::new(&meta(["n", "numeric", "16", "", "", "19", ""])).unwrap();
    assert_eq!(ct.precision, Some(19));
    let ct = ColumnType::new(&meta(["n", "numeric", "16", "", "", "", "21"])).unwrap();
    assert_eq!(ct.precision, Some(21));
    let ct = ColumnType::new(&meta(["n", "numeric", "16", "20", "", "19", "21"])).unwrap();
    assert_eq!(ct.precision, Some(20));
}

#[test]
fn column_list_from_metadata_rows() {
    let rows = vec![
        meta(["c1", "int", "8", "", "", "", ""]),
        meta(["c2", "varchar(64)", "64", "", "", "", ""]),
    ];
    let cts = column_types_from_rows(&rows).unwrap();
    assert_eq!(cts.len(), 2);
    assert_eq!(cts[0].data_type, SqlDataType::Integer);
    assert_eq!(cts[1].data_type, SqlDataType::Varchar);
}

#[test]
fn empty_metadata_means_no_table() {
    assert_eq!(
        column_types_from_rows(&Vec::new()).unwrap_err(),
        Errors::TableNotFoundError
    );
}

#[test]
fn short_metadata_row_is_malformed() {
    let rows = vec![vec!["c1".to_string(), "int".to_string()]];
    assert_eq!(
        column_types_from_rows(&rows).unwrap_err(),
        Errors::MalformedColumnDescription
    );
}

#[test]
fn bad_metadata_row_reports_its_own_error() {
    let rows = vec![
        meta(["c1", "int", "8", "", "", "", ""]),
        meta(["c2", "blob", "8", "", "", "", ""]),
    ];
    assert_eq!(
        column_types_from_rows(&rows).unwrap_err(),
        Errors::UnknownDataType
    );
}

#[test]
fn column_errors_are_reported() {
    assert_eq!(
        ColumnType::new(&meta(["c", "int", "x", "", "", "", ""])).unwrap_err(),
        Errors::MalformedColumnDescription
    );
    assert_eq!(
        ColumnType::new(&meta(["c", "blob", "8", "", "", "", ""])).unwrap_err(),
        Errors::UnknownDataType
    );
    assert_eq!(
        ColumnType::new(&meta(["c", "numeric", "16", "", "bad", "", ""])).unwrap_err(),
        Errors::MalformedColumnDescription
    );
    assert_eq!(
        ColumnType::new(&meta(["c", "numeric", "16", "bad", "", "", ""])).unwrap_err(),
        Errors::MalformedColumnDescription
    );
}
