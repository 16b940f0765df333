//! The per-column model: logical type, declared width, and optional
//! precision and scale, built from the seven text fields the metadata
//! query reports for each column.

use crate::errors::Errors;
use crate::sql_data_type::{classify_chars, SqlDataType};
use vstd::prelude::*;

verus! {

/// One column of the table being extracted.
#[derive(Debug, Clone)]
pub struct ColumnType {
    /// Column name; informational only.
    pub name: String,
    /// The logical SQL type.
    pub data_type: SqlDataType,
    /// Declared storage width in bytes for fixed types, declared
    /// character limit for `Char`/`Varchar`, as the database reports it.
    pub width: u16,
    /// Declared precision, where the database reports one.
    pub precision: Option<u16>,
    /// Declared scale, where the database reports one.
    pub scale: Option<u16>,
}

pub open spec fn is_digit(c: char) -> bool {
    48 <= c as u32 && c as u32 <= 57
}

pub open spec fn digit_val(c: char) -> int {
    c as u32 - 48
}

pub open spec fn all_digits(s: Seq<char>) -> bool {
    forall|i: int| 0 <= i < s.len() ==> is_digit(s[i])
}

/// The number a digit string stands for, most significant digit first.
pub open spec fn digits_value(s: Seq<char>) -> int
    decreases s.len(),
{
    if s.len() == 0 {
        0
    } else {
        digits_value(s.drop_last()) * 10 + digit_val(s.last())
    }
}

/// The digit part of an unsigned decimal string: a single leading `+`
/// is allowed and skipped.
pub open spec fn u16_digits(s: Seq<char>) -> Seq<char> {
    if s.len() > 0 && s[0] == '+' {
        s.drop_first()
    } else {
        s
    }
}

/// What `s` parses to as an unsigned 16-bit decimal: at least one digit
/// after the optional sign, digits only, value at most 65535.
pub open spec fn parse_u16_chars(s: Seq<char>) -> Option<u16> {
    let d = u16_digits(s);
    if d.len() > 0 && all_digits(d) && digits_value(d) <= 65535 {
        Some(digits_value(d) as u16)
    } else {
        None
    }
}

proof fn lemma_digits_value_nonneg(s: Seq<char>)
    requires
        all_digits(s),
    ensures
        digits_value(s) >= 0,
    decreases s.len(),
{
    if s.len() > 0 {
        assert(all_digits(s.drop_last()));
        lemma_digits_value_nonneg(s.drop_last());
    }
}

/// A digit string's value is at least the value of any of its prefixes.
proof fn lemma_digits_value_prefix(s: Seq<char>, j: int)
    requires
        all_digits(s),
        0 <= j <= s.len(),
    ensures
        digits_value(s) >= digits_value(s.subrange(0, j)),
    decreases s.len() - j,
{
    if j == s.len() {
        assert(s.subrange(0, j) =~= s);
    } else {
        let t = s.subrange(0, j + 1);
        assert(t.drop_last() =~= s.subrange(0, j));
        lemma_digits_value_nonneg(t.drop_last());
        assert(digits_value(t) >= digits_value(s.subrange(0, j)));
        lemma_digits_value_prefix(s, j + 1);
    }
}

/// Parse an unsigned 16-bit decimal, exactly as `parse_u16_chars` says.
pub fn parse_u16(s: &str) -> (r: Option<u16>)
    ensures
        r == parse_u16_chars(s@),
{
    let n = s.unicode_len();
    let start: usize = if n > 0 && s.get_char(0) == '+' {
        1
    } else {
        0
    };
    let ghost d = u16_digits(s@);
    proof {
        assert(d =~= s@.subrange(start as int, n as int));
    }
    if start == n {
        return None;
    }
    let mut acc: u32 = 0;
    let mut i: usize = start;
    while i < n
        invariant
            start <= i <= n,
            n == s@.len(),
            start < n,
            d == u16_digits(s@),
            d =~= s@.subrange(start as int, n as int),
            all_digits(d.subrange(0, i - start)),
            acc == digits_value(d.subrange(0, i - start)),
            acc <= 65535,
        decreases n - i,
    {
        let c = s.get_char(i);
        let u = c as u32;
        if u < 48 || u > 57 {
            assert(!is_digit(d[i - start]));
            return None;
        }
        let ghost pre = d.subrange(0, i - start);
        acc = acc * 10 + (u - 48);
        i = i + 1;
        proof {
            let cur = d.subrange(0, i - start);
            assert(cur.drop_last() =~= pre);
            assert(is_digit(cur.last()));
            assert(all_digits(cur));
            assert(acc == digits_value(cur));
        }
        if acc > 65535 {
            // The value can only grow under further digits, and a
            // non-digit fails the parse anyway.
            proof {
                if all_digits(d) {
                    lemma_digits_value_prefix(d, i - start);
                }
            }
            return None;
        }
    }
    proof {
        assert(d.subrange(0, (n - start) as int) =~= d);
    }
    Some(acc as u16)
}

/// Which of the three alternative precision fields applies.
pub open spec fn precision_of(v3: Seq<char>, v5: Seq<char>, v6: Seq<char>) -> Option<u16> {
    if v3.len() > 0 {
        parse_u16_chars(v3)
    } else if v5.len() > 0 {
        parse_u16_chars(v5)
    } else if v6.len() > 0 {
        parse_u16_chars(v6)
    } else {
        None
    }
}

/// Whether the precision fields are well formed: the first non-empty
/// one (if any) parses.
pub open spec fn precision_ok(v3: Seq<char>, v5: Seq<char>, v6: Seq<char>) -> bool {
    if v3.len() > 0 {
        parse_u16_chars(v3) is Some
    } else if v5.len() > 0 {
        parse_u16_chars(v5) is Some
    } else if v6.len() > 0 {
        parse_u16_chars(v6) is Some
    } else {
        true
    }
}

/// Whether a seven-field metadata row describes a column completely:
/// scale and precision parse where present, the type token is known,
/// and the width parses.
pub open spec fn column_fields_ok(vals: Seq<String>) -> bool
    recommends
        vals.len() == 7,
{
    &&& (vals[4]@.len() != 0 ==> parse_u16_chars(vals[4]@) is Some)
    &&& precision_ok(vals[3]@, vals[5]@, vals[6]@)
    &&& classify_chars(vals[1]@) is Some
    &&& parse_u16_chars(vals[2]@) is Some
}

/// How a built column relates to the metadata row it came from.
pub open spec fn column_matches_fields(ct: ColumnType, vals: Seq<String>) -> bool
    recommends
        vals.len() == 7,
{
    &&& ct.name@ == vals[0]@
    &&& classify_chars(vals[1]@) == Some(ct.data_type)
    &&& parse_u16_chars(vals[2]@) == Some(ct.width)
    &&& ct.precision == precision_of(vals[3]@, vals[5]@, vals[6]@)
    &&& ct.scale == (if vals[4]@.len() == 0 {
        None::<u16>
    } else {
        parse_u16_chars(vals[4]@)
    })
}

/// The error an ill-formed metadata row reports: malformed scale, then
/// malformed precision, then the type token, then malformed width.
pub open spec fn column_error(vals: Seq<String>) -> Errors
    recommends
        vals.len() == 7,
{
    if vals[4]@.len() != 0 && parse_u16_chars(vals[4]@) is None {
        Errors::MalformedColumnDescription
    } else if !precision_ok(vals[3]@, vals[5]@, vals[6]@) {
        Errors::MalformedColumnDescription
    } else if classify_chars(vals[1]@) is None {
        Errors::UnknownDataType
    } else {
        Errors::MalformedColumnDescription
    }
}

impl ColumnType {
    /// Build a column model from the seven metadata fields
    /// `(name, type, width, p3, p4, p5, p6)`: `p4` is the scale and
    /// `p3`/`p5`/`p6` are alternative precision reporters; an empty
    /// string means the field is absent.
    pub fn new(values: &Vec<String>) -> (r: Result<ColumnType, Errors>)
        requires
            values@.len() == 7,
        ensures
            r is Ok <==> column_fields_ok(values@),
            match r {
                Ok(ct) => column_matches_fields(ct, values@),
                Err(e) => e == column_error(values@),
            },
    {
        let scale: Option<u16> = if values[4].as_str().is_empty() {
            None
        } else {
            match parse_u16(values[4].as_str()) {
                Some(v) => Some(v),
                None => {
                    return Err(Errors::MalformedColumnDescription);
                },
            }
        };

        let precision: Option<u16> = if !values[3].as_str().is_empty() {
            match parse_u16(values[3].as_str()) {
                Some(v) => Some(v),
                None => {
                    return Err(Errors::MalformedColumnDescription);
                },
            }
        } else if !values[5].as_str().is_empty() {
            match parse_u16(values[5].as_str()) {
                Some(v) => Some(v),
                None => {
                    return Err(Errors::MalformedColumnDescription);
                },
            }
        } else if !values[6].as_str().is_empty() {
            match parse_u16(values[6].as_str()) {
                Some(v) => Some(v),
                None => {
                    return Err(Errors::MalformedColumnDescription);
                },
            }
        } else {
            None
        };

        let data_type = match SqlDataType::from_string(values[1].as_str()) {
            Ok(t) => t,
            Err(e) => {
                return Err(e);
            },
        };

        let width = match parse_u16(values[2].as_str()) {
            Some(w) => w,
            None => {
                return Err(Errors::MalformedColumnDescription);
            },
        };

        Ok(
            ColumnType {
                name: values[0].clone(),
                data_type,
                width,
                precision,
                scale,
            },
        )
    }
}

/// Whether every metadata row has seven fields and describes a column.
pub open spec fn rows_all_ok(rows: Seq<Vec<String>>) -> bool {
    forall|i: int|
        0 <= i < rows.len() ==> (#[trigger] rows[i])@.len() == 7 && column_fields_ok(rows[i]@)
}

/// The error a list of metadata rows reports: no rows means the table
/// was not found; otherwise the first bad row decides.
pub open spec fn rows_error_from(rows: Seq<Vec<String>>, i: int) -> Errors
    decreases rows.len() - i,
{
    if i < 0 || i >= rows.len() {
        Errors::TableNotFoundError
    } else if rows[i]@.len() != 7 {
        Errors::MalformedColumnDescription
    } else if !column_fields_ok(rows[i]@) {
        column_error(rows[i]@)
    } else {
        rows_error_from(rows, i + 1)
    }
}

/// Build the column list from the metadata query's rows, one column per
/// seven-field row. A query that returned no rows names a table that
/// does not exist or has no columns.
pub fn column_types_from_rows(rows: &Vec<Vec<String>>) -> (r: Result<Vec<ColumnType>, Errors>)
    ensures
        r is Ok <==> (rows@.len() > 0 && rows_all_ok(rows@)),
        match r {
            Ok(cts) => {
                &&& cts@.len() == rows@.len()
                &&& forall|i: int|
                    0 <= i < rows@.len() ==> column_matches_fields(#[trigger] cts@[i], rows@[i]@)
            },
            Err(e) => e == rows_error_from(rows@, 0),
        },
{
    if rows.len() == 0 {
        return Err(Errors::TableNotFoundError);
    }
    let mut cts: Vec<ColumnType> = Vec::new();
    let mut i: usize = 0;
    while i < rows.len()
        invariant
            i <= rows@.len(),
            rows@.len() > 0,
            cts@.len() == i,
            forall|j: int|
                0 <= j < i ==> (#[trigger] rows@[j])@.len() == 7 && column_fields_ok(rows@[j]@),
            forall|j: int|
                0 <= j < i ==> column_matches_fields(#[trigger] cts@[j], rows@[j]@),
            rows_error_from(rows@, 0) == rows_error_from(rows@, i as int),
        decreases rows@.len() - i,
    {
        let row = &rows[i];
        if row.len() != 7 {
            return Err(Errors::MalformedColumnDescription);
        }
        match ColumnType::new(row) {
            Ok(ct) => cts.push(ct),
            Err(e) => {
                return Err(e);
            },
        }
        i = i + 1;
    }
    Ok(cts)
}

} // verus!
