//! Little-endian byte strings and the values they stand for.
//!
//! Every multi-byte field of the output file is specified through
//! `le_bytes`, and decoded (in proofs) through `le_value`.

use vstd::arithmetic::power::pow;
use vstd::prelude::*;

verus! {

/// The `len` little-endian bytes of `v`: least significant byte first.
/// Bytes beyond `len` are dropped, as a hardware store of `len` bytes would.
pub open spec fn le_bytes(v: nat, len: nat) -> Seq<u8>
    decreases len,
{
    if len == 0 {
        Seq::empty()
    } else {
        seq![(v % 256) as u8] + le_bytes(v / 256, (len - 1) as nat)
    }
}

/// The value a little-endian byte string stands for.
pub open spec fn le_value(s: Seq<u8>) -> nat
    decreases s.len(),
{
    if s.len() == 0 {
        0nat
    } else {
        (s[0] as nat) + 256 * le_value(s.drop_first())
    }
}

/// The unsigned 64-bit image of a signed 64-bit value: its two's complement.
pub open spec fn u64_of_i64(v: i64) -> u64 {
    if v >= 0 {
        v as u64
    } else {
        (v + 0x1_0000_0000_0000_0000) as u64
    }
}

pub proof fn lemma_le_bytes_len(v: nat, len: nat)
    ensures
        le_bytes(v, len).len() == len,
    decreases len,
{
    if len > 0 {
        lemma_le_bytes_len(v / 256, (len - 1) as nat);
    }
}

/// Encoding then decoding is the identity on values that fit.
pub proof fn lemma_le_value_of_le_bytes(v: nat, len: nat)
    requires
        v < pow(256, len),
    ensures
        le_value(le_bytes(v, len)) == v,
    decreases len,
{
    if len == 0 {
        vstd::arithmetic::power::lemma_pow0(256);
    } else {
        let s = le_bytes(v, len);
        let rest = le_bytes(v / 256, (len - 1) as nat);
        lemma_le_bytes_len(v, len);
        lemma_le_bytes_len(v / 256, (len - 1) as nat);
        assert(s[0] == (v % 256) as u8);
        assert(s.drop_first() =~= rest);
        assert(v / 256 < pow(256, (len - 1) as nat)) by {
            vstd::arithmetic::power::lemma_pow1(256);
            vstd::arithmetic::power::lemma_pow_adds(256, 1, (len - 1) as nat);
            vstd::arithmetic::div_mod::lemma_multiply_divide_lt(
                v as int,
                256,
                pow(256, (len - 1) as nat),
            );
        }
        lemma_le_value_of_le_bytes(v / 256, (len - 1) as nat);
        assert(le_value(s) == (v % 256) + 256 * le_value(rest));
        vstd::arithmetic::div_mod::lemma_fundamental_div_mod(v as int, 256);
    }
}

/// Zero encodes as all-zero bytes.
pub proof fn lemma_le_bytes_zero(len: nat)
    ensures
        le_bytes(0, len) =~= Seq::new(len, |i: int| 0u8),
    decreases len,
{
    if len > 0 {
        lemma_le_bytes_zero((len - 1) as nat);
        assert(le_bytes(0, len) =~= Seq::new(len, |i: int| 0u8));
    }
}

/// The little-endian bytes of `x`, `n` bytes, least significant first.
pub fn le_bytes_of(x: u64, n: usize) -> (r: Vec<u8>)
    ensures
        r@ == le_bytes(x as nat, n as nat),
        r@.len() == n,
{
    let mut r: Vec<u8> = Vec::new();
    let mut v: u64 = x;
    let mut i: usize = 0;
    while i < n
        invariant
            i <= n,
            r@.len() == i,
            le_bytes(x as nat, n as nat) =~= r@ + le_bytes(v as nat, (n - i) as nat),
        decreases n - i,
    {
        let b: u8 = (v % 256) as u8;
        let ghost prev = r@;
        let ghost prev_v = v as nat;
        r.push(b);
        v = v / 256;
        i = i + 1;
        proof {
            assert(le_bytes(prev_v, (n - i + 1) as nat) =~= seq![b] + le_bytes(
                v as nat,
                (n - i) as nat,
            ));
            assert(prev + le_bytes(prev_v, (n - i + 1) as nat) =~= r@ + le_bytes(
                v as nat,
                (n - i) as nat,
            ));
        }
    }
    proof {
        lemma_le_bytes_len(x as nat, n as nat);
        assert(r@ =~= le_bytes(x as nat, n as nat));
    }
    r
}

/// The eight little-endian bytes of a signed 64-bit value,
/// in its two's-complement image.
pub fn i64_le_bytes(x: i64) -> (r: Vec<u8>)
    ensures
        r@ == le_bytes(u64_of_i64(x) as nat, 8),
        r@.len() == 8,
{
    #[verifier::truncate]
    let u: u64 = x as u64;
    proof {
        assert(x < 0 ==> x as u64 == x + 0x1_0000_0000_0000_0000) by (bit_vector);
    }
    le_bytes_of(u, 8)
}

} // verus!
