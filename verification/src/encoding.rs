//! Per-type value encoding: the byte representation of one column value
//! for one row, dispatched on the column's logical type.

use crate::bytes_le::{i64_le_bytes, le_bytes, le_bytes_of, lemma_le_bytes_zero, u64_of_i64};
use crate::calendar::{
    date_difference_days, datetime_difference_micros, days_between_dates,
    micros_between_datetimes, valid_hms_nano, valid_ymd,
};
use crate::column_type::ColumnType;
use crate::errors::Errors;
use crate::numeric::{encode_numeric, numeric_encoding, numeric_error};
use crate::sql_data_type::SqlDataType;
use vstd::prelude::*;

verus! {

/// One cell as handed over by the caller: either null, or a plain value
/// of the shape the column's logical type calls for.
pub enum SqlValue {
    /// The cell is SQL NULL.
    Null,
    /// A signed 64-bit integer, for `Integer` columns.
    Integer(i64),
    /// The IEEE-754 binary64 bit pattern of a double, for `Float`
    /// columns (`f64::to_bits` of the fetched value).
    Float(u64),
    /// A boolean, for `Boolean` columns.
    Boolean(bool),
    /// Text as its UTF-8 bytes, for `Char`, `Varchar` and `Numeric`
    /// columns (a numeric arrives as its decimal text).
    Text(Vec<u8>),
    /// Raw bytes, for `Binary`, `Varbinary`, `Interval` and `TimeTz`
    /// columns (a timetz arrives as the driver's six-byte time tuple).
    Bytes(Vec<u8>),
    /// A broken-down date.
    Date { year: i16, month: u16, day: u16 },
    /// A broken-down datetime with a nanosecond fraction, for
    /// `Timestamp` and `TimestampTz` columns.
    Timestamp {
        year: i16,
        month: u16,
        day: u16,
        hour: u16,
        minute: u16,
        second: u16,
        fraction: u32,
    },
    /// A time of day, for `Time` columns.
    Time { hour: u16, minute: u16, second: u16 },
}

/// Microseconds since midnight of a time of day.
pub open spec fn time_micros_of(h: int, mi: int, s: int) -> int {
    (h * 3600 + mi * 60 + s) * 1_000_000
}

/// The little-endian u16 read at offset `i` of a raw byte string.
pub open spec fn u16_at(p: Seq<u8>, i: int) -> int {
    p[i] + 256 * p[i + 1]
}

/// Whether a raw timetz tuple is well formed: six bytes of
/// `u16 hour || u16 minute || u16 second`, each field in range.
pub open spec fn timetz_raw_valid(p: Seq<u8>) -> bool {
    &&& p.len() >= 6
    &&& u16_at(p, 0) < 24
    &&& u16_at(p, 2) < 60
    &&& u16_at(p, 4) < 60
}

pub open spec fn integer_cell(v: i64) -> Seq<u8> {
    le_bytes(u64_of_i64(v) as nat, 8)
}

pub open spec fn float_cell(bits: u64) -> Seq<u8> {
    le_bytes(bits as nat, 8)
}

pub open spec fn boolean_cell(b: bool) -> Seq<u8> {
    seq![
        if b {
            1u8
        } else {
            0u8
        },
    ]
}

/// A variable-width cell: a u32 little-endian length, then the payload.
pub open spec fn varlen_cell(p: Seq<u8>) -> Seq<u8> {
    le_bytes(p.len(), 4) + p
}

/// A date cell: signed days since 2000-01-01, eight bytes little-endian.
pub open spec fn date_cell(y: int, m: int, d: int) -> Seq<u8> {
    le_bytes(u64_of_i64(days_between_dates(y, m, d, 2000, 1, 1)) as nat, 8)
}

/// A timestamp cell: signed microseconds since 2000-01-01T00:00:00,
/// eight bytes little-endian.
pub open spec fn timestamp_cell(
    y: int,
    m: int,
    d: int,
    h: int,
    mi: int,
    s: int,
    n: int,
) -> Seq<u8> {
    le_bytes(
        u64_of_i64(micros_between_datetimes(y, m, d, h, mi, s, n, 2000, 1, 1, 0, 0, 0, 0)) as nat,
        8,
    )
}

/// A time cell: microseconds since midnight, eight bytes little-endian;
/// fractional seconds are dropped.
pub open spec fn time_cell(h: int, mi: int, s: int) -> Seq<u8> {
    le_bytes(time_micros_of(h, mi, s) as nat, 8)
}

/// A timetz cell: microseconds since midnight in the high 40 bits, the
/// zone offset in seconds biased by one day in the low 24 bits.
pub open spec fn timetz_cell(h: int, mi: int, s: int, tz_offset: int) -> Seq<u8> {
    le_bytes((time_micros_of(h, mi, s) * 0x1000000 + tz_offset + 86400) as nat, 8)
}

/// Whether a value's shape fits a logical type. Null fits every type.
pub open spec fn value_matches(v: SqlValue, t: SqlDataType) -> bool {
    match v {
        SqlValue::Null => true,
        SqlValue::Integer(_) => t == SqlDataType::Integer,
        SqlValue::Float(_) => t == SqlDataType::Float,
        SqlValue::Boolean(_) => t == SqlDataType::Boolean,
        SqlValue::Text(_) => t == SqlDataType::Char || t == SqlDataType::Varchar || t
            == SqlDataType::Numeric,
        SqlValue::Bytes(_) => t == SqlDataType::Binary || t == SqlDataType::Varbinary || t
            == SqlDataType::Interval || t == SqlDataType::TimeTz,
        SqlValue::Date { .. } => t == SqlDataType::Date,
        SqlValue::Timestamp { .. } => t == SqlDataType::Timestamp || t == SqlDataType::TimestampTz,
        SqlValue::Time { .. } => t == SqlDataType::Time,
    }
}

/// What a caller owes for the cell to be encodable at all: calendar
/// fields name real dates and times, a raw timetz tuple is well formed,
/// and variable-width payloads fit their u32 length prefix.
pub open spec fn value_ok(v: SqlValue, t: SqlDataType) -> bool {
    match v {
        SqlValue::Date { year, month, day } => valid_ymd(year as int, month as int, day as int),
        SqlValue::Timestamp { year, month, day, hour, minute, second, fraction } => valid_ymd(
            year as int,
            month as int,
            day as int,
        ) && valid_hms_nano(hour as int, minute as int, second as int, fraction as int),
        SqlValue::Time { hour, minute, second } => hour < 24 && minute < 60 && second < 60,
        SqlValue::Text(p) => t == SqlDataType::Varchar ==> p@.len() <= u32::MAX,
        SqlValue::Bytes(p) => {
            &&& (t == SqlDataType::Varbinary ==> p@.len() <= u32::MAX)
            &&& (t == SqlDataType::TimeTz ==> timetz_raw_valid(p@))
        },
        _ => true,
    }
}

/// The scale a column applies to numeric cells: absent means zero.
pub open spec fn scale_of(ct: ColumnType) -> nat {
    match ct.scale {
        None => 0,
        Some(s) => s as nat,
    }
}

/// The bytes one cell contributes to its row, or `None` where encoding
/// fails. A null cell contributes no bytes.
pub open spec fn cell_encoding(v: SqlValue, ct: ColumnType, tz_offset: int) -> Option<Seq<u8>> {
    if !value_matches(v, ct.data_type) {
        None
    } else {
        match v {
            SqlValue::Null => Some(Seq::empty()),
            SqlValue::Integer(x) => Some(integer_cell(x)),
            SqlValue::Float(bits) => Some(float_cell(bits)),
            SqlValue::Boolean(b) => Some(boolean_cell(b)),
            SqlValue::Text(p) => if ct.data_type == SqlDataType::Char {
                Some(p@)
            } else if ct.data_type == SqlDataType::Varchar {
                Some(varlen_cell(p@))
            } else {
                numeric_encoding(p@, scale_of(ct), ct.width as nat)
            },
            SqlValue::Bytes(p) => if ct.data_type == SqlDataType::Varbinary {
                Some(varlen_cell(p@))
            } else if ct.data_type == SqlDataType::TimeTz {
                Some(timetz_cell(u16_at(p@, 0), u16_at(p@, 2), u16_at(p@, 4), tz_offset))
            } else {
                Some(p@)
            },
            SqlValue::Date { year, month, day } => Some(
                date_cell(year as int, month as int, day as int),
            ),
            SqlValue::Timestamp { year, month, day, hour, minute, second, fraction } => Some(
                timestamp_cell(
                    year as int,
                    month as int,
                    day as int,
                    hour as int,
                    minute as int,
                    second as int,
                    fraction as int,
                ),
            ),
            SqlValue::Time { hour, minute, second } => Some(
                time_cell(hour as int, minute as int, second as int),
            ),
        }
    }
}

/// Which error a failed cell encoding reports.
pub open spec fn cell_error(v: SqlValue, ct: ColumnType) -> Errors {
    if !value_matches(v, ct.data_type) {
        Errors::ValueTypeMismatch
    } else {
        match v {
            SqlValue::Text(p) => numeric_error(p@),
            _ => Errors::ValueTypeMismatch,
        }
    }
}

/// Encode an `Integer` cell: eight bytes little-endian.
pub fn encode_integer(v: i64) -> (r: Vec<u8>)
    ensures
        r@ == integer_cell(v),
        r@.len() == 8,
{
    i64_le_bytes(v)
}

/// Encode a `Float` cell from its IEEE-754 bit pattern: eight bytes
/// little-endian, the native bit layout.
pub fn encode_float_bits(bits: u64) -> (r: Vec<u8>)
    ensures
        r@ == float_cell(bits),
        r@.len() == 8,
{
    le_bytes_of(bits, 8)
}

/// Encode a `Boolean` cell: one byte, 1 for true and 0 for false.
pub fn encode_boolean(b: bool) -> (r: Vec<u8>)
    ensures
        r@ == boolean_cell(b),
        r@.len() == 1,
{
    let mut r: Vec<u8> = Vec::new();
    if b {
        r.push(1u8);
    } else {
        r.push(0u8);
    }
    proof {
        assert(r@ =~= boolean_cell(b));
    }
    r
}

/// Encode a variable-width cell: a u32 little-endian payload length,
/// then the payload itself.
pub fn encode_varlen(p: &Vec<u8>) -> (r: Vec<u8>)
    requires
        p@.len() <= u32::MAX,
    ensures
        r@ == varlen_cell(p@),
        r@.len() == 4 + p@.len(),
{
    let mut r = le_bytes_of(p.len() as u64, 4);
    let mut i: usize = 0;
    while i < p.len()
        invariant
            i <= p@.len(),
            r@ =~= le_bytes(p@.len() as nat, 4) + p@.subrange(0, i as int),
        decreases p@.len() - i,
    {
        r.push(p[i]);
        i = i + 1;
        proof {
            assert(r@ =~= le_bytes(p@.len() as nat, 4) + p@.subrange(0, i as int));
        }
    }
    proof {
        assert(p@.subrange(0, p@.len() as int) =~= p@);
        assert(r@ =~= varlen_cell(p@));
    }
    r
}

/// Encode a `Date` cell: signed days since 2000-01-01, eight bytes
/// little-endian. The epoch itself encodes as eight zero bytes.
pub fn encode_date(year: i16, month: u16, day: u16) -> (r: Vec<u8>)
    requires
        valid_ymd(year as int, month as int, day as int),
    ensures
        r@ == date_cell(year as int, month as int, day as int),
        r@.len() == 8,
        (year == 2000 && month == 1 && day == 1) ==> r@ =~= Seq::new(8, |i: int| 0u8),
{
    let days = date_difference_days(year, month, day, 2000, 1, 1);
    let r = i64_le_bytes(days);
    proof {
        if year == 2000 && month == 1 && day == 1 {
            lemma_le_bytes_zero(8);
        }
    }
    r
}

/// Encode a `Timestamp` (or `TimestampTz`) cell: signed microseconds
/// since 2000-01-01T00:00:00, eight bytes little-endian. The epoch
/// itself encodes as eight zero bytes.
pub fn encode_timestamp(
    year: i16,
    month: u16,
    day: u16,
    hour: u16,
    minute: u16,
    second: u16,
    fraction: u32,
) -> (r: Vec<u8>)
    requires
        valid_ymd(year as int, month as int, day as int),
        valid_hms_nano(hour as int, minute as int, second as int, fraction as int),
    ensures
        r@ == timestamp_cell(
            year as int,
            month as int,
            day as int,
            hour as int,
            minute as int,
            second as int,
            fraction as int,
        ),
        r@.len() == 8,
        (year == 2000 && month == 1 && day == 1 && hour == 0 && minute == 0 && second == 0
            && fraction == 0) ==> r@ =~= Seq::new(8, |i: int| 0u8),
{
    let micros = datetime_difference_micros(
        year,
        month,
        day,
        hour,
        minute,
        second,
        fraction,
        2000,
        1,
        1,
        0,
        0,
        0,
        0,
    );
    let r = i64_le_bytes(micros);
    proof {
        if year == 2000 && month == 1 && day == 1 && hour == 0 && minute == 0 && second == 0
            && fraction == 0 {
            lemma_le_bytes_zero(8);
        }
    }
    r
}

/// Encode a `Time` cell: microseconds since midnight, eight bytes
/// little-endian.
pub fn encode_time(hour: u16, minute: u16, second: u16) -> (r: Vec<u8>)
    requires
        hour < 24,
        minute < 60,
        second < 60,
    ensures
        r@ == time_cell(hour as int, minute as int, second as int),
        r@.len() == 8,
{
    let micros: u64 = (hour as u64 * 3600 + minute as u64 * 60 + second as u64) * 1_000_000;
    le_bytes_of(micros, 8)
}

/// Encode a `TimeTz` cell: microseconds since midnight shifted into the
/// high 40 bits, plus the zone offset in seconds biased by one day.
pub fn encode_timetz(hour: u16, minute: u16, second: u16, tz_offset_seconds: i64) -> (r: Vec<u8>)
    requires
        hour < 24,
        minute < 60,
        second < 60,
        -86400 < tz_offset_seconds < 86400,
    ensures
        r@ == timetz_cell(
            hour as int,
            minute as int,
            second as int,
            tz_offset_seconds as int,
        ),
        r@.len() == 8,
{
    let micros: i64 = (hour as i64 * 3600 + minute as i64 * 60 + second as i64) * 1_000_000;
    let total: i64 = micros * 0x1000000 + tz_offset_seconds + 86400;
    #[verifier::truncate]
    let u: u64 = total as u64;
    proof {
        assert(total >= 0 ==> total as u64 == total) by (bit_vector);
    }
    le_bytes_of(u, 8)
}

/// Encode one cell for one column. Null encodes to no bytes; the
/// errors say exactly which failure occurred.
pub fn encode_value(value: &SqlValue, col_type: &ColumnType, tz_offset_seconds: i64) -> (r: Result<
    Vec<u8>,
    Errors,
>)
    requires
        value_ok(*value, col_type.data_type),
        (value is Bytes && col_type.data_type == SqlDataType::TimeTz) ==> -86400
            < tz_offset_seconds < 86400,
    ensures
        match r {
            Ok(b) => cell_encoding(*value, *col_type, tz_offset_seconds as int) == Some(b@),
            Err(e) => {
                &&& cell_encoding(*value, *col_type, tz_offset_seconds as int) is None
                &&& e == cell_error(*value, *col_type)
            },
        },
{
    match value {
        SqlValue::Null => Ok(Vec::new()),
        SqlValue::Integer(x) => {
            if matches!(col_type.data_type, SqlDataType::Integer) {
                Ok(encode_integer(*x))
            } else {
                Err(Errors::ValueTypeMismatch)
            }
        },
        SqlValue::Float(bits) => {
            if matches!(col_type.data_type, SqlDataType::Float) {
                Ok(encode_float_bits(*bits))
            } else {
                Err(Errors::ValueTypeMismatch)
            }
        },
        SqlValue::Boolean(b) => {
            if matches!(col_type.data_type, SqlDataType::Boolean) {
                Ok(encode_boolean(*b))
            } else {
                Err(Errors::ValueTypeMismatch)
            }
        },
        SqlValue::Text(p) => {
            match col_type.data_type {
                SqlDataType::Char => Ok(copy_bytes(p)),
                SqlDataType::Varchar => Ok(encode_varlen(p)),
                SqlDataType::Numeric => {
                    let scale: u16 = match col_type.scale {
                        None => 0,
                        Some(s) => s,
                    };
                    encode_numeric(p, col_type.width, scale)
                },
                _ => Err(Errors::ValueTypeMismatch),
            }
        },
        SqlValue::Bytes(p) => {
            match col_type.data_type {
                SqlDataType::Binary => Ok(copy_bytes(p)),
                SqlDataType::Interval => Ok(copy_bytes(p)),
                SqlDataType::Varbinary => Ok(encode_varlen(p)),
                SqlDataType::TimeTz => {
                    let hour = u16_from_pair(p, 0);
                    let minute = u16_from_pair(p, 2);
                    let second = u16_from_pair(p, 4);
                    Ok(encode_timetz(hour, minute, second, tz_offset_seconds))
                },
                _ => Err(Errors::ValueTypeMismatch),
            }
        },
        SqlValue::Date { year, month, day } => {
            if matches!(col_type.data_type, SqlDataType::Date) {
                Ok(encode_date(*year, *month, *day))
            } else {
                Err(Errors::ValueTypeMismatch)
            }
        },
        SqlValue::Timestamp { year, month, day, hour, minute, second, fraction } => {
            if matches!(col_type.data_type, SqlDataType::Timestamp | SqlDataType::TimestampTz) {
                Ok(encode_timestamp(*year, *month, *day, *hour, *minute, *second, *fraction))
            } else {
                Err(Errors::ValueTypeMismatch)
            }
        },
        SqlValue::Time { hour, minute, second } => {
            if matches!(col_type.data_type, SqlDataType::Time) {
                Ok(encode_time(*hour, *minute, *second))
            } else {
                Err(Errors::ValueTypeMismatch)
            }
        },
    }
}

/// A fresh copy of a byte vector: `Char`, `Binary` and `Interval` cells
/// are emitted as they arrive.
fn copy_bytes(p: &Vec<u8>) -> (r: Vec<u8>)
    ensures
        r@ == p@,
{
    let mut r: Vec<u8> = Vec::new();
    let mut i: usize = 0;
    while i < p.len()
        invariant
            i <= p@.len(),
            r@ =~= p@.subrange(0, i as int),
        decreases p@.len() - i,
    {
        r.push(p[i]);
        i = i + 1;
        proof {
            assert(r@ =~= p@.subrange(0, i as int));
        }
    }
    proof {
        assert(r@ =~= p@);
    }
    r
}

/// Every fixed-width type encodes a non-null cell to a constant length:
/// eight bytes for `Integer`, `Float`, `Date`, `Timestamp`,
/// `TimestampTz`, `Time` and `TimeTz`; one byte for `Boolean`.
pub proof fn lemma_fixed_width_cells(
    v: i64,
    bits: u64,
    b: bool,
    y: int,
    mo: int,
    d: int,
    h: int,
    mi: int,
    s: int,
    n: int,
    tz: int,
)
    ensures
        integer_cell(v).len() == 8,
        float_cell(bits).len() == 8,
        boolean_cell(b).len() == 1,
        date_cell(y, mo, d).len() == 8,
        timestamp_cell(y, mo, d, h, mi, s, n).len() == 8,
        time_cell(h, mi, s).len() == 8,
        timetz_cell(h, mi, s, tz).len() == 8,
{
    crate::bytes_le::lemma_le_bytes_len(u64_of_i64(v) as nat, 8);
    crate::bytes_le::lemma_le_bytes_len(bits as nat, 8);
    crate::bytes_le::lemma_le_bytes_len(
        u64_of_i64(days_between_dates(y, mo, d, 2000, 1, 1)) as nat,
        8,
    );
    crate::bytes_le::lemma_le_bytes_len(
        u64_of_i64(micros_between_datetimes(y, mo, d, h, mi, s, n, 2000, 1, 1, 0, 0, 0, 0)) as nat,
        8,
    );
    crate::bytes_le::lemma_le_bytes_len(time_micros_of(h, mi, s) as nat, 8);
    crate::bytes_le::lemma_le_bytes_len((time_micros_of(h, mi, s) * 0x1000000 + tz + 86400) as nat, 8);
}

/// A `Varchar` or `Varbinary` cell is four bytes longer than its
/// payload, and its leading u32 stores exactly the payload length.
pub proof fn lemma_varlen_cell(p: Seq<u8>)
    requires
        p.len() <= u32::MAX,
    ensures
        varlen_cell(p).len() == 4 + p.len(),
        crate::bytes_le::le_value(varlen_cell(p).subrange(0, 4)) == p.len(),
{
    crate::bytes_le::lemma_le_bytes_len(p.len(), 4);
    assert(varlen_cell(p).subrange(0, 4) =~= le_bytes(p.len(), 4));
    assert(vstd::arithmetic::power::pow(256, 4) == 0x1_0000_0000) by {
        reveal_with_fuel(vstd::arithmetic::power::pow, 5);
    }
    crate::bytes_le::lemma_le_value_of_le_bytes(p.len(), 4);
}

/// A `Numeric` cell's length is `((precision/19)+1)*8` wherever the
/// declared width is the one the database derives from that precision.
pub proof fn lemma_numeric_cell_len(n: int, scale: nat, p: u16, w: nat)
    requires
        w == ((p / 19) + 1) * 8,
        crate::numeric::numeric_fits(n, scale, w),
    ensures
        crate::numeric::numeric_bytes(n, scale, w).len() == ((p / 19) + 1) * 8,
{
    let u = crate::numeric::u128_image(n * crate::numeric::pow10(scale));
    let m = crate::numeric::sig_len(u);
    crate::bytes_le::lemma_le_bytes_len(u, m);
    let padded = crate::numeric::numeric_padded(u, n < 0, w);
    assert(padded.len() == w);
    let k = (p / 19 + 1) as int;
    vstd::arithmetic::div_mod::lemma_fundamental_div_mod_converse_div(w as int, 8, k, 0);
    assert(crate::numeric::numeric_bytes(n, scale, w).len() == (w as int / 8) * 8);
}

/// The little-endian u16 at offset `i` of a raw byte string.
fn u16_from_pair(p: &Vec<u8>, i: usize) -> (r: u16)
    requires
        i + 2 <= p@.len(),
    ensures
        r as int == u16_at(p@, i as int),
{
    // Binding the length keeps the index arithmetic visibly in bounds.
    let len = p.len();
    let lo = p[i];
    let hi = p[i + 1];
    (lo as u16) + 256 * (hi as u16)
}

} // verus!
