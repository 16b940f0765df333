//! Encoding of NUMERIC values: the decimal text is parsed as a signed
//! 128-bit integer, scaled by ten to the column's scale, and laid out in
//! the column's width as 8-byte limbs, most significant limb first, each
//! limb's bytes least significant first.

use crate::bytes_le::{le_bytes, le_value, lemma_le_bytes_len, lemma_le_value_of_le_bytes};
use crate::errors::Errors;
use vstd::arithmetic::div_mod::{
    lemma_div_denominator, lemma_div_is_ordered, lemma_div_multiples_vanish,
    lemma_fundamental_div_mod, lemma_fundamental_div_mod_converse_div,
    lemma_fundamental_div_mod_converse_mod, lemma_mod_bound, lemma_multiply_divide_lt,
    lemma_small_mod,
};
use vstd::arithmetic::mul::lemma_mul_inequality;
use vstd::arithmetic::power::{lemma_pow0, lemma_pow1, lemma_pow_adds, lemma_pow_positive, pow};
use vstd::prelude::*;

verus! {

pub open spec fn is_dec_digit(b: u8) -> bool {
    48 <= b && b <= 57
}

pub open spec fn all_dec_digits(s: Seq<u8>) -> bool {
    forall|i: int| 0 <= i < s.len() ==> is_dec_digit(s[i])
}

/// The number a byte string of decimal digits stands for,
/// most significant digit first.
pub open spec fn dec_value(s: Seq<u8>) -> int
    decreases s.len(),
{
    if s.len() == 0 {
        0
    } else {
        dec_value(s.drop_last()) * 10 + (s.last() - 48)
    }
}

pub open spec fn has_sign(s: Seq<u8>) -> bool {
    s.len() > 0 && (s[0] == 43 || s[0] == 45)
}

pub open spec fn digit_part(s: Seq<u8>) -> Seq<u8> {
    if has_sign(s) {
        s.drop_first()
    } else {
        s
    }
}

pub open spec fn is_negative_literal(s: Seq<u8>) -> bool {
    s.len() > 0 && s[0] == 45
}

/// What a decimal byte string parses to as a signed 128-bit integer:
/// an optional sign, at least one digit, digits only, and a value
/// within the 128-bit range.
pub open spec fn parse_i128_bytes(s: Seq<u8>) -> Option<int> {
    let d = digit_part(s);
    if d.len() > 0 && all_dec_digits(d) {
        let v = if is_negative_literal(s) {
            -dec_value(d)
        } else {
            dec_value(d)
        };
        if -0x8000_0000_0000_0000_0000_0000_0000_0000 <= v
            <= 0x7fff_ffff_ffff_ffff_ffff_ffff_ffff_ffff {
            Some(v)
        } else {
            None
        }
    } else {
        None
    }
}

pub open spec fn pow10(e: nat) -> int
    decreases e,
{
    if e == 0 {
        1
    } else {
        10 * pow10((e - 1) as nat)
    }
}

pub open spec fn fits_i128(v: int) -> bool {
    -0x8000_0000_0000_0000_0000_0000_0000_0000 <= v
        <= 0x7fff_ffff_ffff_ffff_ffff_ffff_ffff_ffff
}

/// The unsigned 128-bit image of a signed value: its two's complement.
pub open spec fn u128_image(v: int) -> nat {
    if v >= 0 {
        v as nat
    } else {
        (v + 0x1_0000_0000_0000_0000_0000_0000_0000_0000) as nat
    }
}

/// How many base-256 digits `v` takes: its significant byte count.
pub open spec fn sig_len(v: nat) -> nat
    decreases v,
{
    if v == 0 {
        0
    } else {
        (1 + sig_len(v / 256)) as nat
    }
}

/// The big-endian bytes of `v` in `len` bytes: most significant first.
pub open spec fn be_bytes(v: nat, len: nat) -> Seq<u8> {
    le_bytes(v, len).reverse()
}

/// The `w`-byte big-endian buffer before limb reversal: the significant
/// bytes of the magnitude image, left-padded with `0x00`, or with `0xFF`
/// for a negative value.
pub open spec fn numeric_padded(u: nat, neg: bool, w: nat) -> Seq<u8>
    recommends
        sig_len(u) <= w,
{
    Seq::new(
        (w - sig_len(u)) as nat,
        |i: int|
            if neg {
                255u8
            } else {
                0u8
            },
    ) + be_bytes(u, sig_len(u))
}

/// Each complete 8-byte chunk of `s` with its bytes reversed; bytes past
/// the last complete chunk are dropped.
pub open spec fn chunk_reversed(s: Seq<u8>) -> Seq<u8> {
    Seq::new(((s.len() / 8) * 8) as nat, |i: int| s[8 * (i / 8) + 7 - (i % 8)])
}

/// The scaled value `n * 10^scale` fits 128 bits and its image fits the
/// declared width.
pub open spec fn numeric_fits(n: int, scale: nat, w: nat) -> bool {
    fits_i128(n * pow10(scale)) && sig_len(u128_image(n * pow10(scale))) <= w
}

/// The on-wire bytes of a numeric value `n` under `scale` and width `w`.
pub open spec fn numeric_bytes(n: int, scale: nat, w: nat) -> Seq<u8>
    recommends
        numeric_fits(n, scale, w),
{
    chunk_reversed(numeric_padded(u128_image(n * pow10(scale)), n < 0, w))
}

/// What encoding a numeric text yields, or `None` where it fails.
pub open spec fn numeric_encoding(text: Seq<u8>, scale: nat, w: nat) -> Option<Seq<u8>> {
    match parse_i128_bytes(text) {
        None => None,
        Some(n) => if numeric_fits(n, scale, w) {
            Some(numeric_bytes(n, scale, w))
        } else {
            None
        },
    }
}

/// Which error a failed numeric encoding reports.
pub open spec fn numeric_error(text: Seq<u8>) -> Errors {
    if parse_i128_bytes(text) is None {
        Errors::NumericValueInvalid
    } else {
        Errors::NumericValueTooWide
    }
}

proof fn lemma_dec_value_nonneg(s: Seq<u8>)
    requires
        all_dec_digits(s),
    ensures
        dec_value(s) >= 0,
    decreases s.len(),
{
    if s.len() > 0 {
        assert(all_dec_digits(s.drop_last()));
        lemma_dec_value_nonneg(s.drop_last());
    }
}

/// A digit string's value is at least the value of any of its prefixes.
proof fn lemma_dec_value_prefix(s: Seq<u8>, j: int)
    requires
        all_dec_digits(s),
        0 <= j <= s.len(),
    ensures
        dec_value(s) >= dec_value(s.subrange(0, j)),
    decreases s.len() - j,
{
    if j == s.len() {
        assert(s.subrange(0, j) =~= s);
    } else {
        let t = s.subrange(0, j + 1);
        assert(t.drop_last() =~= s.subrange(0, j));
        lemma_dec_value_nonneg(t.drop_last());
        lemma_dec_value_prefix(s, j + 1);
    }
}

proof fn lemma_pow10_pos(e: nat)
    ensures
        pow10(e) >= 1,
    decreases e,
{
    if e > 0 {
        lemma_pow10_pos((e - 1) as nat);
    }
}

/// `pow10` grows with the exponent.
proof fn lemma_pow10_increases(a: nat, b: nat)
    requires
        a <= b,
    ensures
        pow10(a) <= pow10(b),
    decreases b,
{
    if a < b {
        lemma_pow10_increases(a, (b - 1) as nat);
        lemma_pow10_pos((b - 1) as nat);
    }
}

/// Parse a decimal byte string into sign and magnitude, exactly as
/// `parse_i128_bytes` says.
#[verifier::rlimit(100)]
#[verifier::spinoff_prover]
fn parse_i128_parts(text: &Vec<u8>) -> (r: Option<(bool, u128)>)
    ensures
        match r {
            Some(p) => {
                &&& parse_i128_bytes(text@) matches Some(n)
                &&& parse_i128_bytes(text@) == Some(
                    if p.0 {
                        -(p.1 as int)
                    } else {
                        p.1 as int
                    },
                )
                &&& (p.0 <==> parse_i128_bytes(text@)->Some_0 < 0)
            },
            None => parse_i128_bytes(text@) is None,
        },
{
    let n = text.len();
    let negative = n > 0 && text[0] == 45;
    let start: usize = if n > 0 && (text[0] == 43 || text[0] == 45) {
        1
    } else {
        0
    };
    let ghost d = digit_part(text@);
    proof {
        assert(d =~= text@.subrange(start as int, n as int));
    }
    if start == n {
        return None;
    }
    let mut mag: u128 = 0;
    let mut i: usize = start;
    while i < n
        invariant
            start <= i <= n,
            start < n,
            n == text@.len(),
            d == digit_part(text@),
            d =~= text@.subrange(start as int, n as int),
            all_dec_digits(d.subrange(0, i - start)),
            mag == dec_value(d.subrange(0, i - start)),
            mag <= 0x8000_0000_0000_0000_0000_0000_0000_0000u128,
        decreases n - i,
    {
        let b = text[i];
        if b < 48 || b > 57 {
            assert(!is_dec_digit(d[i - start]));
            return None;
        }
        let ghost pre = d.subrange(0, i - start);
        let stepped = match mag.checked_mul(10) {
            Some(m10) => m10.checked_add((b - 48) as u128),
            None => None,
        };
        i = i + 1;
        proof {
            let cur = d.subrange(0, i - start);
            assert(cur.drop_last() =~= pre);
            assert(is_dec_digit(cur.last()));
            assert(all_dec_digits(cur));
        }
        match stepped {
            None => {
                // The value of the whole digit string can only be larger.
                proof {
                    if all_dec_digits(d) {
                        lemma_dec_value_prefix(d, i - start);
                    }
                }
                return None;
            },
            Some(m) => {
                mag = m;
                if mag > 0x8000_0000_0000_0000_0000_0000_0000_0000u128 {
                    proof {
                        if all_dec_digits(d) {
                            lemma_dec_value_prefix(d, i - start);
                        }
                    }
                    return None;
                }
            },
        }
    }
    proof {
        assert(d.subrange(0, (n - start) as int) =~= d);
    }
    if !negative && mag == 0x8000_0000_0000_0000_0000_0000_0000_0000u128 {
        return None;
    }
    if mag == 0 {
        Some((false, 0))
    } else {
        Some((negative, mag))
    }
}

/// One's-complement the first `head` bytes in place; the rest stay.
pub fn negate(bytes: &mut Vec<u8>, head: usize)
    requires
        head <= old(bytes)@.len(),
    ensures
        final(bytes)@.len() == old(bytes)@.len(),
        forall|i: int| 0 <= i < head ==> final(bytes)@[i] == old(bytes)@[i] ^ 0xFF,
        forall|i: int| head <= i < final(bytes)@.len() ==> final(bytes)@[i] == old(bytes)@[i],
{
    let mut i: usize = 0;
    while i < head
        invariant
            i <= head <= bytes@.len(),
            bytes@.len() == old(bytes)@.len(),
            forall|j: int| 0 <= j < i ==> bytes@[j] == old(bytes)@[j] ^ 0xFF,
            forall|j: int| i <= j < bytes@.len() ==> bytes@[j] == old(bytes)@[j],
        decreases head - i,
    {
        let b = bytes[i];
        bytes.set(i, b ^ 0xFF);
        i = i + 1;
    }
}

/// Encode one numeric cell from its decimal text, under the column's
/// declared width (in bytes) and scale.
pub fn encode_numeric(text: &Vec<u8>, width: u16, scale: u16) -> (r: Result<Vec<u8>, Errors>)
    ensures
        match r {
            Ok(b) => numeric_encoding(text@, scale as nat, width as nat) == Some(b@),
            Err(e) => numeric_encoding(text@, scale as nat, width as nat) is None && e
                == numeric_error(text@),
        },
{
    let (negative, mag) = match parse_i128_parts(text) {
        Some(p) => p,
        None => {
            return Err(Errors::NumericValueInvalid);
        },
    };
    let ghost n = parse_i128_bytes(text@)->Some_0;
    let ghost unscaled = n * pow10(scale as nat);

    // Scale the magnitude by 10^scale, reporting exactly the values whose
    // scaled form leaves the 128-bit range.
    let mut mag2: u128 = mag;
    let mut k: u16 = 0;
    while k < scale
        invariant
            k <= scale,
            mag2 == (mag as int) * pow10(k as nat),
            parse_i128_bytes(text@) == Some(n),
            n == if negative {
                -(mag as int)
            } else {
                mag as int
            },
            (negative <==> n < 0),
            unscaled == n * pow10(scale as nat),
        decreases scale - k,
    {
        let stepped = mag2.checked_mul(10);
        proof {
            assert((mag as int) * pow10((k + 1) as nat) == ((mag as int) * pow10(k as nat)) * 10)
                by (nonlinear_arith)
                requires
                    pow10((k + 1) as nat) == 10 * pow10(k as nat),
            ;
        }
        match stepped {
            None => {
                proof {
                    lemma_pow10_pos(scale as nat);
                    lemma_scaled_magnitude_grows(mag as int, (k + 1) as nat, scale as nat);
                    assert(!fits_i128(unscaled)) by (nonlinear_arith)
                        requires
                            n == if negative {
                                -(mag as int)
                            } else {
                                mag as int
                            },
                            unscaled == n * pow10(scale as nat),
                            (mag as int) * pow10(scale as nat) >= (mag as int) * pow10(
                                (k + 1) as nat,
                            ),
                            (mag as int) * pow10((k + 1) as nat)
                                > 0xffff_ffff_ffff_ffff_ffff_ffff_ffff_ffffu128,
                            pow10(scale as nat) >= 1,
                    ;
                }
                return Err(Errors::NumericValueTooWide);
            },
            Some(m) => {
                mag2 = m;
                k = k + 1;
            },
        }
    }
    // mag2 == |unscaled|, provided the sign is applied.
    proof {
        assert(unscaled == if negative {
            -(mag2 as int)
        } else {
            mag2 as int
        }) by (nonlinear_arith)
            requires
                n == if negative {
                    -(mag as int)
                } else {
                    mag as int
                },
                unscaled == n * pow10(scale as nat),
                mag2 == (mag as int) * pow10(scale as nat),
        ;
    }
    if negative {
        if mag2 > 0x8000_0000_0000_0000_0000_0000_0000_0000u128 {
            return Err(Errors::NumericValueTooWide);
        }
    } else {
        if mag2 > 0x7fff_ffff_ffff_ffff_ffff_ffff_ffff_ffffu128 {
            return Err(Errors::NumericValueTooWide);
        }
    }
    assert(fits_i128(unscaled));
    proof {
        if negative {
            lemma_scaled_magnitude_grows(mag as int, 0, scale as nat);
            assert(mag2 >= 1);
        }
    }

    // The unsigned 128-bit image of the scaled value.
    let u: u128 = if negative && mag2 > 0 {
        (0xffff_ffff_ffff_ffff_ffff_ffff_ffff_ffffu128 - mag2) + 1
    } else {
        mag2
    };
    proof {
        if negative && mag2 > 0 {
            assert(n < 0 && mag2 >= 1);
            assert(u as nat == u128_image(unscaled));
        } else {
            assert(u as nat == u128_image(unscaled));
        }
    }
    let ghost uval = u as nat;

    // The significant bytes of the image, least significant first.
    let mut sig: Vec<u8> = Vec::new();
    let mut v: u128 = u;
    while v > 0
        invariant
            sig@.len() + sig_len(v as nat) == sig_len(uval),
            le_bytes(uval, sig_len(uval)) =~= sig@ + le_bytes(v as nat, sig_len(v as nat)),
        decreases v,
    {
        let ghost prev = sig@;
        let ghost pv = v as nat;
        sig.push((v % 256) as u8);
        v = v / 256;
        proof {
            assert(le_bytes(pv, sig_len(pv)) =~= seq![(pv % 256) as u8] + le_bytes(
                v as nat,
                sig_len(v as nat),
            ));
            assert(prev + le_bytes(pv, sig_len(pv)) =~= sig@ + le_bytes(
                v as nat,
                sig_len(v as nat),
            ));
        }
    }
    let m = sig.len();
    proof {
        assert(m == sig_len(uval));
        assert(sig@ + le_bytes(0, 0) =~= sig@);
        assert(sig@ =~= le_bytes(uval, sig_len(uval)));
    }
    let w = width as usize;
    if m > w {
        return Err(Errors::NumericValueTooWide);
    }

    // The big-endian buffer: pad bytes, then the significant bytes,
    // most significant first; a negative pad is one's-complemented.
    let pad = w - m;
    let mut padded: Vec<u8> = Vec::new();
    let mut j: usize = 0;
    while j < pad
        invariant
            j <= pad,
            padded@.len() == j,
            forall|t: int| 0 <= t < j ==> padded@[t] == 0u8,
        decreases pad - j,
    {
        padded.push(0u8);
        j = j + 1;
    }
    let mut j2: usize = 0;
    while j2 < m
        invariant
            j2 <= m == sig@.len(),
            padded@.len() == pad + j2,
            forall|t: int| 0 <= t < pad ==> padded@[t] == 0u8,
            forall|t: int| 0 <= t < j2 ==> #[trigger] padded@[pad + t] == sig@[m - 1 - t],
        decreases m - j2,
    {
        padded.push(sig[m - 1 - j2]);
        j2 = j2 + 1;
    }
    let is_negative_value = negative && mag2 > 0;
    if is_negative_value {
        negate(&mut padded, pad);
    }
    proof {
        assert(0u8 ^ 0xFF == 0xFFu8) by (bit_vector);
        assert(is_negative_value == (n < 0));
        let np = numeric_padded(uval, n < 0, width as nat);
        crate::bytes_le::lemma_le_bytes_len(uval, sig_len(uval));
        assert(np.len() == pad + m);
        assert forall|t: int| 0 <= t < padded@.len() implies padded@[t] == np[t] by {
            if t < pad {
                assert(np[t] == (if n < 0 {
                    255u8
                } else {
                    0u8
                }));
            } else {
                assert(np[t] == be_bytes(uval, sig_len(uval))[t - pad]);
                assert(be_bytes(uval, sig_len(uval))[t - pad] == le_bytes(uval, sig_len(uval))[
                    m - 1 - (t - pad)
                ]);
                assert(padded@[pad + (t - pad)] == sig@[m - 1 - (t - pad)]);
            }
        }
        assert(padded@ =~= np);
    }

    // Reverse the bytes within each 8-byte limb.
    let limbs = w / 8;
    let mut out: Vec<u8> = Vec::new();
    let mut c: usize = 0;
    while c < limbs
        invariant
            c <= limbs,
            limbs == padded@.len() / 8,
            padded@.len() == width as nat,
            out@.len() == 8 * c,
            forall|i: int|
                0 <= i < out@.len() ==> out@[i] == padded@[8 * (i / 8) + 7 - (i % 8)],
        decreases limbs - c,
    {
        let mut j3: usize = 0;
        while j3 < 8
            invariant
                j3 <= 8,
                c < limbs,
                limbs == padded@.len() / 8,
                padded@.len() == width as nat,
                out@.len() == 8 * c + j3,
                forall|i: int|
                    0 <= i < out@.len() ==> out@[i] == padded@[8 * (i / 8) + 7 - (i % 8)],
            decreases 8 - j3,
        {
            proof {
                assert(8 * c + 8 <= padded@.len()) by {
                    lemma_fundamental_div_mod(padded@.len() as int, 8);
                }
                lemma_fundamental_div_mod_converse_div((8 * c + j3) as int, 8, c as int, j3 as int);
                lemma_fundamental_div_mod_converse_mod((8 * c + j3) as int, 8, c as int, j3 as int);
            }
            out.push(padded[c * 8 + 7 - j3]);
            j3 = j3 + 1;
        }
        c = c + 1;
    }
    proof {
        lemma_fundamental_div_mod(width as int, 8);
        assert(out@ =~= chunk_reversed(padded@));
        assert(numeric_fits(n, scale as nat, width as nat));
        assert(out@ == numeric_bytes(n, scale as nat, width as nat));
    }
    Ok(out)
}

/// For a nonnegative magnitude, scaling by a larger power of ten can
/// only grow the product.
proof fn lemma_scaled_magnitude_grows(mag: int, a: nat, b: nat)
    requires
        mag >= 0,
        a <= b,
    ensures
        mag * pow10(b) >= mag * pow10(a),
{
    lemma_pow10_increases(a, b);
    lemma_mul_inequality(pow10(a), pow10(b), mag);
    assert(pow10(a) * mag == mag * pow10(a)) by (nonlinear_arith);
    assert(pow10(b) * mag == mag * pow10(b)) by (nonlinear_arith);
}

/// The unsigned value big-endian bytes stand for.
pub open spec fn be_value(s: Seq<u8>) -> nat
    decreases s.len(),
{
    if s.len() == 0 {
        0nat
    } else {
        (be_value(s.drop_last()) * 256 + s.last()) as nat
    }
}

/// The signed value a numeric cell's bytes stand for: undo the per-limb
/// reversal, then read the buffer as a big-endian two's-complement
/// integer.
pub open spec fn decode_numeric(s: Seq<u8>) -> int
    recommends
        s.len() % 8 == 0,
{
    let b = chunk_reversed(s);
    if b.len() > 0 && b[0] >= 128 {
        be_value(b) - pow(256, b.len())
    } else {
        be_value(b) as int
    }
}

proof fn lemma_pow256_step(e: nat)
    ensures
        pow(256, e + 1) == 256 * pow(256, e),
{
    lemma_pow1(256);
    lemma_pow_adds(256, 1, e);
}

/// Reading bytes big-endian after a reversal is reading them
/// little-endian.
proof fn lemma_be_value_of_reverse(s: Seq<u8>)
    ensures
        be_value(s.reverse()) == le_value(s),
    decreases s.len(),
{
    if s.len() > 0 {
        let t = s.reverse();
        assert(t.last() == s[0]);
        assert(t.drop_last() =~= s.drop_first().reverse());
        lemma_be_value_of_reverse(s.drop_first());
    }
}

/// A value fits its significant byte count.
proof fn lemma_sig_len_bound(v: nat)
    ensures
        v < pow(256, sig_len(v)),
    decreases v,
{
    if v == 0 {
        lemma_pow0(256);
    } else {
        lemma_sig_len_bound(v / 256);
        lemma_pow256_step((sig_len(v) - 1) as nat);
        lemma_fundamental_div_mod(v as int, 256);
    }
}

/// A value below `256^len` takes at most `len` significant bytes.
proof fn lemma_sig_len_le(v: nat, len: nat)
    requires
        v < pow(256, len),
    ensures
        sig_len(v) <= len,
    decreases len,
{
    if v > 0 {
        if len == 0 {
            lemma_pow0(256);
        } else {
            lemma_pow256_step((len - 1) as nat);
            lemma_multiply_divide_lt(v as int, 256, pow(256, (len - 1) as nat));
            lemma_sig_len_le(v / 256, (len - 1) as nat);
        }
    }
}

/// A value at or above `256^len` takes more than `len` significant bytes.
proof fn lemma_sig_len_ge(v: nat, len: nat)
    requires
        v >= pow(256, len),
    ensures
        sig_len(v) >= len + 1,
    decreases len,
{
    lemma_pow0(256);
    if len == 0 {
        lemma_pow_positive(256, len);
    } else {
        lemma_pow256_step((len - 1) as nat);
        lemma_pow_positive(256, (len - 1) as nat);
        assert(v / 256 >= pow(256, (len - 1) as nat)) by {
            lemma_div_is_ordered(256 * pow(256, (len - 1) as nat), v as int, 256);
            lemma_div_multiples_vanish(pow(256, (len - 1) as nat), 256);
        }
        lemma_sig_len_ge(v / 256, (len - 1) as nat);
    }
}

/// Big-endian reading distributes over concatenation.
proof fn lemma_be_value_concat(a: Seq<u8>, b: Seq<u8>)
    ensures
        be_value(a + b) == be_value(a) * pow(256, b.len()) + be_value(b),
    decreases b.len(),
{
    if b.len() == 0 {
        lemma_pow0(256);
        assert(a + b =~= a);
    } else {
        assert((a + b).drop_last() =~= a + b.drop_last());
        assert((a + b).last() == b.last());
        lemma_be_value_concat(a, b.drop_last());
        lemma_pow256_step((b.len() - 1) as nat);
        assert((be_value(a) * pow(256, (b.len() - 1) as nat) + be_value(b.drop_last())) * 256
            == be_value(a) * (256 * pow(256, (b.len() - 1) as nat)) + 256 * be_value(
            b.drop_last(),
        )) by (nonlinear_arith);
    }
}

proof fn lemma_be_value_zeros(k: nat)
    ensures
        be_value(Seq::new(k, |i: int| 0u8)) == 0,
    decreases k,
{
    if k > 0 {
        assert(Seq::new(k, |i: int| 0u8).drop_last() =~= Seq::new((k - 1) as nat, |i: int| 0u8));
        lemma_be_value_zeros((k - 1) as nat);
    }
}

proof fn lemma_be_value_ffs(k: nat)
    ensures
        be_value(Seq::new(k, |i: int| 255u8)) == pow(256, k) - 1,
    decreases k,
{
    if k == 0 {
        lemma_pow0(256);
    } else {
        assert(Seq::new(k, |i: int| 255u8).drop_last() =~= Seq::new(
            (k - 1) as nat,
            |i: int| 255u8,
        ));
        lemma_be_value_ffs((k - 1) as nat);
        lemma_pow256_step((k - 1) as nat);
    }
}

/// The most significant byte of a little-endian encoding.
proof fn lemma_le_bytes_top(v: nat, len: nat)
    requires
        len >= 1,
    ensures
        le_bytes(v, len)[len - 1] == ((v as int / pow(256, (len - 1) as nat)) % 256) as u8,
    decreases len,
{
    lemma_le_bytes_len(v, len);
    if len == 1 {
        lemma_pow0(256);
        assert(v / 1 == v);
    } else {
        lemma_le_bytes_top(v / 256, (len - 1) as nat);
        lemma_le_bytes_len(v / 256, (len - 1) as nat);
        assert(le_bytes(v, len)[len - 1] == le_bytes(v / 256, (len - 1) as nat)[len - 2]);
        lemma_pow256_step((len - 2) as nat);
        lemma_pow_positive(256, (len - 2) as nat);
        lemma_div_denominator(v as int, 256, pow(256, (len - 2) as nat));
        assert((v / 256) as int / pow(256, (len - 2) as nat) == v as int / (256 * pow(
            256,
            (len - 2) as nat,
        )));
    }
}

/// Reversing each 8-byte limb twice is the identity on whole-limb
/// buffers.
proof fn lemma_chunk_reversed_involution(s: Seq<u8>)
    requires
        s.len() % 8 == 0,
    ensures
        chunk_reversed(chunk_reversed(s)) =~= s,
{
    lemma_fundamental_div_mod(s.len() as int, 8);
    assert((s.len() as int / 8) * 8 == s.len());
    let t = chunk_reversed(s);
    assert(t.len() == s.len());
    assert forall|i: int| 0 <= i < s.len() implies chunk_reversed(t)[i] == s[i] by {
        let q = i / 8;
        let r = i % 8;
        lemma_fundamental_div_mod(i, 8);
        lemma_mod_bound(i, 8);
        let f = 8 * q + 7 - r;
        lemma_fundamental_div_mod_converse_div(f, 8, q, 7 - r);
        lemma_fundamental_div_mod_converse_mod(f, 8, q, 7 - r);
        assert(f / 8 == q && f % 8 == 7 - r);
        assert(0 <= f < s.len()) by {
            lemma_multiply_divide_lt(i, 8, s.len() as int / 8);
        }
        assert(chunk_reversed(t)[i] == t[f]);
        assert(t[f] == s[8 * (f / 8) + 7 - (f % 8)]);
        assert(8 * (f / 8) + 7 - (f % 8) == i);
    }
}

/// A numeric zero encodes as all-zero bytes of the full declared width,
/// whatever the scale, wherever the width is a whole number of limbs.
pub proof fn lemma_numeric_zero(scale: nat, w: nat)
    requires
        w % 8 == 0,
    ensures
        numeric_fits(0, scale, w),
        numeric_bytes(0, scale, w) =~= Seq::new(w, |i: int| 0u8),
{
    assert(0 * pow10(scale) == 0);
    assert(u128_image(0) == 0);
    assert(sig_len(0) == 0);
    let padded = numeric_padded(0, false, w);
    lemma_le_bytes_len(0, 0);
    assert(padded =~= Seq::new(w, |i: int| 0u8));
    lemma_fundamental_div_mod(w as int, 8);
    assert((w as int / 8) * 8 == w);
    assert forall|i: int| 0 <= i < w implies chunk_reversed(padded)[i] == 0u8 by {
        lemma_fundamental_div_mod(i, 8);
        lemma_mod_bound(i, 8);
        lemma_multiply_divide_lt(i, 8, w as int / 8);
        assert(0 <= 8 * (i / 8) + 7 - (i % 8) < w);
    }
    assert(numeric_bytes(0, scale, w) =~= Seq::new(w, |i: int| 0u8));
}

/// Re-decoding an encoded numeric returns the scaled value unchanged.
/// The side conditions are intrinsic to a two's-complement buffer: a
/// nonnegative value must leave the top bit clear (a scaled value that
/// fills it, such as ten to the nineteenth in a single limb, re-decodes
/// as a negative), and a negative value needs at least two limbs to
/// carry its sixteen sign-extended image bytes.
pub proof fn lemma_numeric_round_trip(n: int, scale: nat, w: nat)
    requires
        numeric_fits(n, scale, w),
        w % 8 == 0,
        n >= 0 ==> 2 * (n * pow10(scale)) < pow(256, w),
        n < 0 ==> w >= 16,
    ensures
        decode_numeric(numeric_bytes(n, scale, w)) == n * pow10(scale),
{
    lemma_pow10_pos(scale);
    let unscaled = n * pow10(scale);
    let u = u128_image(unscaled);
    let m = sig_len(u);
    let padded = numeric_padded(u, n < 0, w);
    lemma_le_bytes_len(u, m);
    assert(padded.len() == w);
    lemma_chunk_reversed_involution(padded);
    assert(chunk_reversed(numeric_bytes(n, scale, w)) =~= padded);
    let pad = Seq::new((w - m) as nat, |i: int| if n < 0 { 255u8 } else { 0u8 });
    let sig = be_bytes(u, m);
    assert(padded =~= pad + sig);
    lemma_sig_len_bound(u);
    lemma_be_value_of_reverse(le_bytes(u, m));
    lemma_le_value_of_le_bytes(u, m);
    assert(be_value(sig) == u);
    lemma_be_value_concat(pad, sig);
    lemma_fundamental_div_mod(w as int, 8);
    assert((w as int / 8) * 8 == w);

    if n >= 0 {
        assert(unscaled >= 0) by (nonlinear_arith)
            requires n >= 0 && pow10(scale) >= 1 && unscaled == n * pow10(scale);
        assert(u == unscaled);
        assert(pad =~= Seq::new((w - m) as nat, |i: int| 0u8));
        lemma_be_value_zeros((w - m) as nat);
        assert(be_value(padded) == u) by (nonlinear_arith)
            requires
                be_value(padded) == be_value(pad) * pow(256, sig.len()) + be_value(sig),
                be_value(pad) == 0,
                be_value(sig) == u,
        ;
        if w == 0 {
            assert(padded.len() == 0);
            assert(decode_numeric(numeric_bytes(n, scale, w)) == 0);
            lemma_pow0(256);
            assert(u == 0);
        } else if m < w {
            assert(padded[0] == 0u8);
            assert(decode_numeric(numeric_bytes(n, scale, w)) == u);
        } else {
            // m == w >= 1: the top byte is below 128 because 2u < 256^w.
            assert(padded =~= sig);
            assert(sig[0] == le_bytes(u, m)[m - 1]);
            lemma_le_bytes_top(u, m);
            lemma_pow256_step((m - 1) as nat);
            lemma_pow_positive(256, (m - 1) as nat);
            assert(u as int / pow(256, (m - 1) as nat) < 256) by {
                lemma_multiply_divide_lt(u as int, pow(256, (m - 1) as nat), 256);
                assert(u < pow(256, (m - 1) as nat) * 256) by (nonlinear_arith)
                    requires
                        u < pow(256, m as nat),
                        pow(256, m as nat) == 256 * pow(256, (m - 1) as nat),
                ;
            }
            lemma_small_mod((u as int / pow(256, (m - 1) as nat)) as nat, 256);
            assert(u as int / pow(256, (m - 1) as nat) < 128) by {
                lemma_multiply_divide_lt(u as int, pow(256, (m - 1) as nat), 128);
                assert(2 * (u as int) < pow(256, m as nat) ==> u < pow(256, (m - 1) as nat)
                    * 128) by (nonlinear_arith)
                    requires
                        pow(256, m as nat) == 256 * pow(256, (m - 1) as nat),
                ;
            }
            assert(padded[0] < 128);
            assert(decode_numeric(numeric_bytes(n, scale, w)) == u);
        }
    } else {
        assert(unscaled < 0) by (nonlinear_arith)
            requires n < 0 && pow10(scale) >= 1 && unscaled == n * pow10(scale);
        assert(u == unscaled + 0x1_0000_0000_0000_0000_0000_0000_0000_0000);
        // The image of a negative value takes exactly 16 significant bytes.
        assert(pow(256, 16) == 0x1_0000_0000_0000_0000_0000_0000_0000_0000) by {
            reveal_with_fuel(pow, 17);
        }
        assert(pow(256, 15) == 0x100_0000_0000_0000_0000_0000_0000_0000) by {
            reveal_with_fuel(pow, 16);
        }
        assert(u >= 128 * pow(256, 15));
        lemma_sig_len_ge(u, 15);
        lemma_sig_len_le(u, 16);
        assert(m == 16);
        assert(pad =~= Seq::new((w - 16) as nat, |i: int| 255u8));
        lemma_be_value_ffs((w - 16) as nat);
        lemma_pow_adds(256, (w - 16) as nat, 16);
        assert(be_value(padded) == (pow(256, (w - 16) as nat) - 1) * pow(256, 16) + u);
        assert((pow(256, (w - 16) as nat) - 1) * pow(256, 16) == pow(256, (w - 16) as nat) * pow(
            256,
            16,
        ) - pow(256, 16)) by (nonlinear_arith);
        assert(be_value(padded) == pow(256, w) - pow(256, 16) + u);
        // The top byte carries the sign.
        if w > 16 {
            assert(padded[0] == 255u8);
        } else {
            assert(w == 16);
            assert(padded =~= sig);
            assert(sig[0] == le_bytes(u, 16)[15]);
            lemma_le_bytes_top(u, 16);
            assert(u as int / pow(256, 15) < 256) by {
                lemma_multiply_divide_lt(u as int, pow(256, 15), 256);
            }
            lemma_small_mod((u as int / pow(256, 15)) as nat, 256);
            assert(u as int / pow(256, 15) >= 128) by {
                lemma_div_is_ordered(128 * pow(256, 15), u as int, pow(256, 15));
                lemma_div_multiples_vanish(128, pow(256, 15));
            }
            assert(padded[0] >= 128);
        }
        assert(padded[0] >= 128);
        assert(decode_numeric(numeric_bytes(n, scale, w)) == be_value(padded) - pow(256, w));
    }
}

} // verus!
