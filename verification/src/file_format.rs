//! The output file's layout: the magic signature, the column descriptor
//! block, per-row null bitmaps, and whole-row assembly.

use crate::bytes_le::{le_bytes, le_bytes_of, le_value, lemma_le_value_of_le_bytes};
use crate::column_type::ColumnType;
use crate::encoding::{cell_encoding, cell_error, encode_value, value_ok, SqlValue};
use crate::errors::Errors;
use crate::sql_data_type::SqlDataType;
use vstd::arithmetic::power::pow;
use vstd::prelude::*;

verus! {

/// The 11-byte file signature.
pub open spec fn magic_bytes() -> Seq<u8> {
    seq![0x4Eu8, 0x41u8, 0x54u8, 0x49u8, 0x56u8, 0x45u8, 0x0Au8, 0xFFu8, 0x0Du8, 0x0Au8, 0x00u8]
}

/// The on-wire width the header reports for one column.
pub open spec fn on_wire_width(ct: ColumnType) -> u32 {
    match ct.data_type {
        SqlDataType::Integer => ct.width as u32,
        SqlDataType::Char => ct.width as u32,
        SqlDataType::Binary => ct.width as u32,
        SqlDataType::Varchar => 0xFFFF_FFFFu32,
        SqlDataType::Varbinary => 0xFFFF_FFFFu32,
        SqlDataType::Boolean => 1u32,
        SqlDataType::Numeric => match ct.precision {
            Some(p) => ((p / 19 + 1) * 8) as u32,
            None => 0u32,
        },
        _ => 8u32,
    }
}

/// The concatenated 4-byte little-endian on-wire widths of the columns.
pub open spec fn widths_bytes(cts: Seq<ColumnType>) -> Seq<u8>
    decreases cts.len(),
{
    if cts.len() == 0 {
        Seq::empty()
    } else {
        widths_bytes(cts.drop_last()) + le_bytes(on_wire_width(cts.last()) as nat, 4)
    }
}

/// The column descriptor block: its length prefix of `8 + 4C`, the file
/// version, a filler byte, the column count, and the per-column widths.
pub open spec fn header_block(cts: Seq<ColumnType>) -> Seq<u8> {
    le_bytes((8 + 4 * cts.len()) as nat, 4) + le_bytes(1, 2) + seq![0u8] + le_bytes(cts.len(), 2)
        + widths_bytes(cts)
}

/// The weight of bit position `j` within a bitmap byte: the most
/// significant bit carries the chunk's first column.
pub open spec fn bit_weight(j: int) -> u8 {
    if j == 0 {
        128u8
    } else if j == 1 {
        64u8
    } else if j == 2 {
        32u8
    } else if j == 3 {
        16u8
    } else if j == 4 {
        8u8
    } else if j == 5 {
        4u8
    } else if j == 6 {
        2u8
    } else {
        1u8
    }
}

/// The value of a bitmap byte restricted to its first `j` bit positions.
pub open spec fn bitmap_byte_partial(nulls: Seq<bool>, base: int, j: int) -> int
    decreases j,
{
    if j <= 0 {
        0
    } else {
        bitmap_byte_partial(nulls, base, j - 1) + (if base + (j - 1) < nulls.len() && nulls[base
            + (j - 1)] {
            bit_weight(j - 1) as int
        } else {
            0
        })
    }
}

/// The bitmap byte covering columns `8k .. 8k+8`.
pub open spec fn bitmap_byte(nulls: Seq<bool>, k: int) -> u8 {
    bitmap_byte_partial(nulls, 8 * k, 8) as u8
}

/// The whole null bitmap: one byte per complete-or-partial 8-column
/// chunk, unused trailing bits zero.
pub open spec fn bitmap_bytes(nulls: Seq<bool>) -> Seq<u8> {
    Seq::new((nulls.len() + 7) / 8, |k: int| bitmap_byte(nulls, k))
}

/// The largest value a partial bitmap byte can take: the sum of its
/// first `j` bit weights.
pub open spec fn top_bits_byte(j: int) -> int {
    if j <= 0 {
        0
    } else if j == 1 {
        128
    } else if j == 2 {
        192
    } else if j == 3 {
        224
    } else if j == 4 {
        240
    } else if j == 5 {
        248
    } else if j == 6 {
        252
    } else if j == 7 {
        254
    } else {
        255
    }
}

proof fn lemma_bitmap_byte_partial_bound(nulls: Seq<bool>, base: int, j: int)
    requires
        0 <= j <= 8,
    ensures
        0 <= bitmap_byte_partial(nulls, base, j) <= top_bits_byte(j),
    decreases j,
{
    if j > 0 {
        lemma_bitmap_byte_partial_bound(nulls, base, j - 1);
    }
}

/// The exec mirror of `bit_weight`.
fn bit_weight_at(j: usize) -> (r: u8)
    requires
        j < 8,
    ensures
        r == bit_weight(j as int),
{
    match j {
        0 => 128,
        1 => 64,
        2 => 32,
        3 => 16,
        4 => 8,
        5 => 4,
        6 => 2,
        _ => 1,
    }
}

/// The 11-byte file signature, written once before the header block.
pub fn file_header() -> (r: Vec<u8>)
    ensures
        r@ == magic_bytes(),
        r@.len() == 11,
{
    let mut r: Vec<u8> = Vec::new();
    r.push(0x4E);
    r.push(0x41);
    r.push(0x54);
    r.push(0x49);
    r.push(0x56);
    r.push(0x45);
    r.push(0x0A);
    r.push(0xFF);
    r.push(0x0D);
    r.push(0x0A);
    r.push(0x00);
    proof {
        assert(r@ =~= magic_bytes());
    }
    r
}

/// The column descriptor block for the given columns: length prefix,
/// version 1, filler 0, column count, and one on-wire width per column.
pub fn generate_column_definitions(column_types: &Vec<ColumnType>) -> (r: Vec<u8>)
    requires
        column_types@.len() <= 0xFFFF,
    ensures
        r@ == header_block(column_types@),
        r@.len() == 9 + 4 * column_types@.len(),
{
    let c = column_types.len();
    let mut r = le_bytes_of(8 + 4 * (c as u64), 4);
    let mut version = le_bytes_of(1, 2);
    r.append(&mut version);
    r.push(0u8);
    let mut count = le_bytes_of(c as u64, 2);
    r.append(&mut count);
    let ghost prefix = r@;
    proof {
        crate::bytes_le::lemma_le_bytes_len((8 + 4 * column_types@.len()) as nat, 4);
        crate::bytes_le::lemma_le_bytes_len(1, 2);
        crate::bytes_le::lemma_le_bytes_len(column_types@.len(), 2);
        assert(prefix =~= le_bytes((8 + 4 * column_types@.len()) as nat, 4) + le_bytes(1, 2)
            + seq![0u8] + le_bytes(column_types@.len(), 2));
    }
    let mut i: usize = 0;
    while i < c
        invariant
            i <= c,
            c == column_types@.len(),
            r@ =~= prefix + widths_bytes(column_types@.subrange(0, i as int)),
            prefix.len() == 9,
        decreases c - i,
    {
        let ct = &column_types[i];
        let width: u32 = match ct.data_type {
            SqlDataType::Integer => ct.width as u32,
            SqlDataType::Char => ct.width as u32,
            SqlDataType::Binary => ct.width as u32,
            SqlDataType::Varchar => 0xFFFF_FFFF,
            SqlDataType::Varbinary => 0xFFFF_FFFF,
            SqlDataType::Boolean => 1,
            SqlDataType::Numeric => {
                match ct.precision {
                    Some(p) => ((p / 19 + 1) * 8) as u32,
                    None => 0,
                }
            },
            _ => 8,
        };
        assert(width == on_wire_width(column_types@[i as int]));
        let mut wb = le_bytes_of(width as u64, 4);
        let ghost before = r@;
        r.append(&mut wb);
        i = i + 1;
        proof {
            let sub = column_types@.subrange(0, i as int);
            assert(sub.drop_last() =~= column_types@.subrange(0, i - 1));
            assert(width as nat == on_wire_width(sub.last()) as nat);
            assert(r@ =~= prefix + widths_bytes(sub));
        }
    }
    proof {
        assert(column_types@.subrange(0, c as int) =~= column_types@);
        lemma_widths_bytes_len(column_types@);
    }
    r
}

proof fn lemma_widths_bytes_len(cts: Seq<ColumnType>)
    ensures
        widths_bytes(cts).len() == 4 * cts.len(),
    decreases cts.len(),
{
    if cts.len() > 0 {
        lemma_widths_bytes_len(cts.drop_last());
        crate::bytes_le::lemma_le_bytes_len(on_wire_width(cts.last()) as nat, 4);
    }
}

/// The header's length prefix holds exactly `8 + 4C`.
pub proof fn lemma_header_prefix(cts: Seq<ColumnType>)
    requires
        cts.len() <= 0xFFFF,
    ensures
        le_value(header_block(cts).subrange(0, 4)) == 8 + 4 * cts.len(),
{
    crate::bytes_le::lemma_le_bytes_len((8 + 4 * cts.len()) as nat, 4);
    assert(header_block(cts).subrange(0, 4) =~= le_bytes((8 + 4 * cts.len()) as nat, 4));
    assert(pow(256, 4) == 0x1_0000_0000) by {
        reveal_with_fuel(pow, 5);
    }
    lemma_le_value_of_le_bytes((8 + 4 * cts.len()) as nat, 4);
}

/// Pack the per-row null flags into `⌈C/8⌉` bytes, one bit per column,
/// most significant bit first within each byte.
pub fn create_nulls_bitmap(nulls: &Vec<bool>) -> (r: Vec<u8>)
    ensures
        r@ == bitmap_bytes(nulls@),
        r@.len() == (nulls@.len() + 7) / 8,
{
    let len = nulls.len();
    let mut r: Vec<u8> = Vec::new();
    let mut i: usize = 0;
    while i < len
        invariant
            i <= len,
            len == nulls@.len(),
            i % 8 == 0 || i == len,
            r@.len() == (i + 7) / 8,
            forall|k: int| 0 <= k < r@.len() ==> r@[k] == bitmap_byte(nulls@, k),
        decreases len - i,
    {
        proof {
            assert(i % 8 == 0);
        }
        let remaining = len - i;
        let take: usize = if remaining < 8 {
            remaining
        } else {
            8
        };
        let mut byte: u8 = 0;
        let mut j: usize = 0;
        while j < take
            invariant
                j <= take,
                take <= 8,
                i + take <= len,
                len == nulls@.len(),
                take == 8 || i + take == len,
                byte == bitmap_byte_partial(nulls@, i as int, j as int),
                byte <= top_bits_byte(j as int),
            decreases take - j,
        {
            proof {
                lemma_bitmap_byte_partial_bound(nulls@, i as int, j as int);
            }
            if nulls[i + j] {
                let w = bit_weight_at(j);
                proof {
                    assert(bit_weight(j as int) as int + top_bits_byte(j as int) <= 255);
                }
                byte = byte + w;
            }
            j = j + 1;
        }
        proof {
            if take < 8 {
                lemma_bitmap_partial_stops(nulls@, i as int, take as int, 8);
            }
            assert(byte == bitmap_byte_partial(nulls@, i as int, 8));
            assert(byte == bitmap_byte(nulls@, i as int / 8)) by {
                assert(8 * (i as int / 8) == i as int) by {
                    vstd::arithmetic::div_mod::lemma_fundamental_div_mod(i as int, 8);
                }
            }
        }
        let ghost old_count = r@.len();
        r.push(byte);
        i = i + take;
        proof {
            if take == 8 {
                vstd::arithmetic::div_mod::lemma_fundamental_div_mod_converse_div(
                    (i + 7) as int,
                    8,
                    old_count as int + 1,
                    7,
                );
                vstd::arithmetic::div_mod::lemma_fundamental_div_mod_converse_mod(
                    i as int,
                    8,
                    old_count as int + 1,
                    0,
                );
            } else {
                vstd::arithmetic::div_mod::lemma_fundamental_div_mod_converse_div(
                    (i + 7) as int,
                    8,
                    old_count as int + 1,
                    (i + 7) - 8 * (old_count + 1),
                );
            }
        }
    }
    proof {
        assert(r@ =~= bitmap_bytes(nulls@));
    }
    r
}

/// Bit positions at and past the end of the column list add nothing.
proof fn lemma_bitmap_partial_stops(nulls: Seq<bool>, base: int, jlo: int, jhi: int)
    requires
        0 <= jlo <= jhi,
        base + jlo >= nulls.len(),
    ensures
        bitmap_byte_partial(nulls, base, jhi) == bitmap_byte_partial(nulls, base, jlo),
    decreases jhi - jlo,
{
    if jlo < jhi {
        lemma_bitmap_partial_stops(nulls, base, jlo, jhi - 1);
    }
}

/// Bit `i % 8` of bitmap byte `i / 8`, most significant bit first.
pub open spec fn bitmap_bit(bm: Seq<u8>, i: int) -> bool
    recommends
        0 <= i,
        i / 8 < bm.len(),
{
    ((bm[i / 8] as u32) >> ((7 - (i % 8)) as u32)) & 1 == 1
}

/// Each column's null flag sits at its own bit of the bitmap: column
/// `i` at bit `7 - (i % 8)` of byte `i / 8`, and the trailing bits of a
/// partial final byte are clear.
pub proof fn lemma_bitmap_bit(nulls: Seq<bool>, i: int)
    requires
        0 <= i < 8 * bitmap_bytes(nulls).len(),
    ensures
        bitmap_bit(bitmap_bytes(nulls), i) == (i < nulls.len() && nulls[i]),
{
    let k = i / 8;
    let j = i % 8;
    vstd::arithmetic::div_mod::lemma_fundamental_div_mod(i, 8);
    vstd::arithmetic::div_mod::lemma_mod_bound(i, 8);
    vstd::arithmetic::div_mod::lemma_multiply_divide_lt(i, 8, bitmap_bytes(nulls).len() as int);
    lemma_bitmap_byte_partial_bound(nulls, 8 * k, 8);
    let byte = bitmap_byte(nulls, k);
    let c0: u8 = if 8 * k + 0 < nulls.len() && nulls[8 * k + 0] { 1 } else { 0 };
    let c1: u8 = if 8 * k + 1 < nulls.len() && nulls[8 * k + 1] { 1 } else { 0 };
    let c2: u8 = if 8 * k + 2 < nulls.len() && nulls[8 * k + 2] { 1 } else { 0 };
    let c3: u8 = if 8 * k + 3 < nulls.len() && nulls[8 * k + 3] { 1 } else { 0 };
    let c4: u8 = if 8 * k + 4 < nulls.len() && nulls[8 * k + 4] { 1 } else { 0 };
    let c5: u8 = if 8 * k + 5 < nulls.len() && nulls[8 * k + 5] { 1 } else { 0 };
    let c6: u8 = if 8 * k + 6 < nulls.len() && nulls[8 * k + 6] { 1 } else { 0 };
    let c7: u8 = if 8 * k + 7 < nulls.len() && nulls[8 * k + 7] { 1 } else { 0 };
    assert(bitmap_byte_partial(nulls, 8 * k, 8) == 128 * c0 + 64 * c1 + 32 * c2 + 16 * c3 + 8 * c4
        + 4 * c5 + 2 * c6 + c7) by {
        reveal_with_fuel(bitmap_byte_partial, 9);
    }
    let jj = j as u32;
    assert((((byte as u32) >> ((7 - jj) as u32)) & 1 == 1) <==> (if jj == 0 {
        c0 == 1
    } else if jj == 1 {
        c1 == 1
    } else if jj == 2 {
        c2 == 1
    } else if jj == 3 {
        c3 == 1
    } else if jj == 4 {
        c4 == 1
    } else if jj == 5 {
        c5 == 1
    } else if jj == 6 {
        c6 == 1
    } else {
        c7 == 1
    })) by (bit_vector)
        requires
            byte == 128 * c0 + 64 * c1 + 32 * c2 + 16 * c3 + 8 * c4 + 4 * c5 + 2 * c6 + c7,
            c0 <= 1 && c1 <= 1 && c2 <= 1 && c3 <= 1,
            c4 <= 1 && c5 <= 1 && c6 <= 1 && c7 <= 1,
            jj < 8,
    ;
}

/// A null vector with no nulls packs to all-zero bytes.
pub proof fn lemma_bitmap_all_false(nulls: Seq<bool>)
    requires
        forall|i: int| 0 <= i < nulls.len() ==> !nulls[i],
    ensures
        bitmap_bytes(nulls).len() == (nulls.len() + 7) / 8,
        forall|k: int| 0 <= k < bitmap_bytes(nulls).len() ==> bitmap_bytes(nulls)[k] == 0u8,
{
    assert forall|k: int| 0 <= k < bitmap_bytes(nulls).len() implies bitmap_bytes(nulls)[k]
        == 0u8 by {
        lemma_bitmap_partial_all_false(nulls, 8 * k, 8);
    }
}

proof fn lemma_bitmap_partial_all_false(nulls: Seq<bool>, base: int, j: int)
    requires
        forall|i: int| 0 <= i < nulls.len() ==> !nulls[i],
        base >= 0,
        j >= 0,
    ensures
        bitmap_byte_partial(nulls, base, j) == 0,
    decreases j,
{
    if j > 0 {
        lemma_bitmap_partial_all_false(nulls, base, j - 1);
    }
}

/// A null vector with every column null packs to bytes whose first `C`
/// bits are set, most significant first, and no others.
pub proof fn lemma_bitmap_all_true(nulls: Seq<bool>)
    requires
        forall|i: int| 0 <= i < nulls.len() ==> nulls[i],
    ensures
        bitmap_bytes(nulls).len() == (nulls.len() + 7) / 8,
        forall|k: int|
            0 <= k < bitmap_bytes(nulls).len() ==> bitmap_bytes(nulls)[k] as int == (
            if 8 * k + 8 <= nulls.len() {
                255
            } else {
                top_bits_byte(nulls.len() - 8 * k)
            }),
{
    assert forall|k: int| 0 <= k < bitmap_bytes(nulls).len() implies bitmap_bytes(nulls)[k]
        as int == (if 8 * k + 8 <= nulls.len() {
        255
    } else {
        top_bits_byte(nulls.len() - 8 * k)
    }) by {
        if 8 * k + 8 <= nulls.len() {
            lemma_bitmap_partial_all_true(nulls, 8 * k, 8);
        } else {
            lemma_bitmap_partial_all_true(nulls, 8 * k, nulls.len() - 8 * k);
            lemma_bitmap_partial_stops(nulls, 8 * k, nulls.len() - 8 * k, 8);
        }
    }
}

proof fn lemma_bitmap_partial_all_true(nulls: Seq<bool>, base: int, j: int)
    requires
        forall|i: int| 0 <= i < nulls.len() ==> nulls[i],
        0 <= j <= 8,
        base >= 0,
        base + j <= nulls.len(),
    ensures
        bitmap_byte_partial(nulls, base, j) == top_bits_byte(j),
    decreases j,
{
    if j > 0 {
        lemma_bitmap_partial_all_true(nulls, base, j - 1);
    }
}

/// The null flags a row of values induces.
pub open spec fn nulls_of(values: Seq<SqlValue>) -> Seq<bool> {
    values.map_values(|v: SqlValue| v is Null)
}

/// The concatenated encodings of a row's cells, in column order; null
/// cells add nothing.
pub open spec fn row_payload(values: Seq<SqlValue>, cts: Seq<ColumnType>, tz: int) -> Seq<u8>
    decreases values.len(),
{
    if values.len() == 0 {
        Seq::empty()
    } else {
        row_payload(values.drop_last(), cts, tz) + (match cell_encoding(
            values.last(),
            cts[values.len() - 1],
            tz,
        ) {
            Some(b) => b,
            None => Seq::empty(),
        })
    }
}

/// Every cell of the row encodes.
pub open spec fn row_cells_ok(values: Seq<SqlValue>, cts: Seq<ColumnType>, tz: int) -> bool {
    forall|i: int| 0 <= i < values.len() ==> cell_encoding(values[i], cts[i], tz) is Some
}

/// The row's bitmap and payload together fit the u32 size prefix.
pub open spec fn row_fits(values: Seq<SqlValue>, cts: Seq<ColumnType>, tz: int) -> bool {
    bitmap_bytes(nulls_of(values)).len() + row_payload(values, cts, tz).len() <= u32::MAX
}

/// A whole encoded row: the u32 little-endian payload size (bitmap and
/// values, the prefix itself excluded), the null bitmap, then the
/// concatenated non-null values.
pub open spec fn row_encoding(values: Seq<SqlValue>, cts: Seq<ColumnType>, tz: int) -> Seq<u8> {
    let bm = bitmap_bytes(nulls_of(values));
    let payload = row_payload(values, cts, tz);
    le_bytes((bm.len() + payload.len()) as nat, 4) + bm + payload
}

/// The error an encoding of the row reports: that of its first failing
/// cell, or the size overflow where every cell encodes.
pub open spec fn row_error_from(
    values: Seq<SqlValue>,
    cts: Seq<ColumnType>,
    tz: int,
    i: int,
) -> Errors
    decreases values.len() - i,
{
    if i < 0 || i >= values.len() {
        Errors::RowTooLarge
    } else if cell_encoding(values[i], cts[i], tz) is None {
        cell_error(values[i], cts[i])
    } else {
        row_error_from(values, cts, tz, i + 1)
    }
}

/// A row's size prefix stores exactly `|bitmap| + Σ|encoded values|`,
/// the prefix's own four bytes excluded.
pub proof fn lemma_row_prefix(values: Seq<SqlValue>, cts: Seq<ColumnType>, tz: int)
    requires
        row_fits(values, cts, tz),
    ensures
        le_value(row_encoding(values, cts, tz).subrange(0, 4)) == bitmap_bytes(
            nulls_of(values),
        ).len() + row_payload(values, cts, tz).len(),
{
    let total = (bitmap_bytes(nulls_of(values)).len() + row_payload(values, cts, tz).len()) as nat;
    crate::bytes_le::lemma_le_bytes_len(total, 4);
    assert(row_encoding(values, cts, tz).subrange(0, 4) =~= le_bytes(total, 4));
    assert(pow(256, 4) == 0x1_0000_0000) by {
        reveal_with_fuel(pow, 5);
    }
    lemma_le_value_of_le_bytes(total, 4);
}

/// Per cell, exactly one of two holds: a null cell is flagged in the
/// null vector and contributes no bytes, or a non-null cell is not
/// flagged and contributes exactly its type's encoding to the payload.
pub proof fn lemma_cell_contribution(values: Seq<SqlValue>, cts: Seq<ColumnType>, tz: int, i: int)
    requires
        0 <= i < values.len(),
    ensures
        nulls_of(values)[i] == (values[i] is Null),
        values[i] is Null ==> cell_encoding(values[i], cts[i], tz) == Some(Seq::<u8>::empty()),
{
}

/// Encode one row: size prefix, null bitmap, then the values. The size
/// prefix stores `|bitmap| + Σ|encoded values|`, excluding its own four
/// bytes.
pub fn encode_row(values: &Vec<SqlValue>, column_types: &Vec<ColumnType>, tz_offset_seconds: i64)
    -> (r: Result<Vec<u8>, Errors>)
    requires
        values@.len() == column_types@.len(),
        values@.len() <= 0xFFFF,
        forall|i: int|
            0 <= i < values@.len() ==> value_ok(values@[i], column_types@[i].data_type),
        (exists|i: int|
            0 <= i < values@.len() && values@[i] is Bytes && column_types@[i].data_type
                == SqlDataType::TimeTz) ==> -86400 < tz_offset_seconds < 86400,
    ensures
        match r {
            Ok(b) => {
                &&& row_cells_ok(values@, column_types@, tz_offset_seconds as int)
                &&& row_fits(values@, column_types@, tz_offset_seconds as int)
                &&& b@ == row_encoding(values@, column_types@, tz_offset_seconds as int)
            },
            Err(e) => {
                &&& !(row_cells_ok(values@, column_types@, tz_offset_seconds as int) && row_fits(
                    values@,
                    column_types@,
                    tz_offset_seconds as int,
                ))
                &&& e == row_error_from(values@, column_types@, tz_offset_seconds as int, 0)
            },
        },
{
    let ghost tz = tz_offset_seconds as int;
    let c = values.len();
    let mut nulls: Vec<bool> = Vec::new();
    let mut data: Vec<u8> = Vec::new();
    let mut i: usize = 0;
    while i < c
        invariant
            i <= c,
            c == values@.len(),
            c == column_types@.len(),
            c <= 0xFFFF,
            tz == tz_offset_seconds as int,
            (exists|j: int|
                0 <= j < values@.len() && values@[j] is Bytes && column_types@[j].data_type
                    == SqlDataType::TimeTz) ==> -86400 < tz_offset_seconds < 86400,
            forall|j: int|
                0 <= j < values@.len() ==> value_ok(values@[j], column_types@[j].data_type),
            nulls@ =~= nulls_of(values@.subrange(0, i as int)),
            data@ == row_payload(values@.subrange(0, i as int), column_types@, tz),
            forall|j: int|
                0 <= j < i ==> cell_encoding(values@[j], column_types@[j], tz) is Some,
            row_error_from(values@, column_types@, tz, 0) == row_error_from(
                values@,
                column_types@,
                tz,
                i as int,
            ),
        decreases c - i,
    {
        let v = &values[i];
        let is_null = matches!(v, SqlValue::Null);
        nulls.push(is_null);
        proof {
            assert(nulls@ =~= nulls_of(values@.subrange(0, i + 1)));
        }
        match encode_value(v, &column_types[i], tz_offset_seconds) {
            Ok(mut cell) => {
                let ghost before = data@;
                data.append(&mut cell);
                proof {
                    let sub = values@.subrange(0, i + 1);
                    assert(sub.drop_last() =~= values@.subrange(0, i as int));
                    assert(data@ == row_payload(sub, column_types@, tz));
                }
            },
            Err(e) => {
                return Err(e);
            },
        }
        i = i + 1;
    }
    proof {
        assert(values@.subrange(0, c as int) =~= values@);
        assert(row_cells_ok(values@, column_types@, tz));
    }
    let mut bm = create_nulls_bitmap(&nulls);
    if data.len() > 0xFFFF_FFFFusize {
        return Err(Errors::RowTooLarge);
    }
    let total: u64 = bm.len() as u64 + data.len() as u64;
    if total > 0xFFFF_FFFFu64 {
        return Err(Errors::RowTooLarge);
    }
    let mut out = le_bytes_of(total, 4);
    out.append(&mut bm);
    out.append(&mut data);
    proof {
        assert(out@ =~= row_encoding(values@, column_types@, tz));
    }
    Ok(out)
}

} // verus!
