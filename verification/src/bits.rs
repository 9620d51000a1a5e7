//! The encoding read bit by bit: the bits of the symbols' values, in
//! order, are the bits of the input, in order, and zeros after them.

use vstd::prelude::*;
use vstd::arithmetic::power2::{lemma2_to64, lemma_pow2_adds, lemma_pow2_pos, pow2};
use vstd::arithmetic::div_mod::{
    lemma_div_denominator, lemma_fundamental_div_mod, lemma_hoist_over_denominator,
    lemma_mod_multiples_vanish,
};
use crate::base::{dec_spec, enc_spec, Base};
use crate::model::{
    block_of, encode_nopad_len_spec, group, lemma_lengths, lemma_sizes, lemma_symbol_index, pack,
    symbol_at,
};
use crate::round_trip::{lemma_low_digits_zero, lemma_pack_bytes};

verus! {

/// The `i`-th bit of `input`, the most significant bit of the first byte
/// first; zero past the end.
pub open spec fn input_bit(input: Seq<u8>, i: int) -> nat {
    if 0 <= i < 8 * input.len() {
        (input[i / 8] as nat / pow2((7 - i % 8) as nat)) % 2
    } else {
        0
    }
}

/// The value of the `k`-th symbol of the encoding of `input`.
pub open spec fn symbol_value(bit: nat, input: Seq<u8>, k: int) -> nat {
    let e = enc_spec(bit);
    let d = dec_spec(bit);
    group(pack(block_of(input, e, k / (d as int)), e), bit, d, (k % (d as int)) as nat)
}

/// The `t`-th bit of a value of `bit` bits, the most significant first.
pub open spec fn value_bit(v: nat, bit: nat, t: int) -> nat {
    (v / pow2((bit - 1 - t) as nat)) % 2
}

/// A bit of the low `w` bits of a number is that bit of the number.
proof fn lemma_bit_of_low_bits(y: nat, w: nat, s: nat)
    requires
        s < w,
    ensures
        ((y % pow2(w)) / pow2(s)) % 2 == (y / pow2(s)) % 2,
{
    let pw = pow2(w);
    let ps = pow2(s);
    let half = pow2((w - s - 1) as nat);
    lemma_pow2_pos(w);
    lemma_pow2_pos(s);
    lemma_pow2_adds(s, (w - s) as nat);
    lemma_pow2_adds(1, (w - s - 1) as nat);
    lemma2_to64();
    assert(pw == ps * (2 * half));
    let q = y / pw;
    let r = y % pw;
    lemma_fundamental_div_mod(y as int, pw as int);
    let j = 2 * (half * q);
    assert(y == r + j * ps) by (nonlinear_arith)
        requires
            y == pw * q + r,
            pw == ps * (2 * half),
            j == 2 * (half * q),
    ;
    lemma_hoist_over_denominator(r as int, j as int, ps);
    lemma_mod_multiples_vanish((half * q) as int, (r / ps) as int, 2);
    assert(y / ps == r / ps + j);
}

/// Dividing by two powers of two in turn divides by their product.
proof fn lemma_div_pow2_twice(x: nat, a: nat, s: nat)
    ensures
        (x / pow2(a)) / pow2(s) == x / pow2(a + s),
{
    lemma_pow2_pos(a);
    lemma_pow2_pos(s);
    lemma_pow2_adds(a, s);
    lemma_div_denominator(x as int, pow2(a) as int, pow2(s) as int);
}

/// Within one block: the `t`-th bit of the `k`-th symbol's value is the
/// bit of the block's bytes at position `k * bit + t`, zero past them.
proof fn lemma_block_bits(chunk: Seq<u8>, bit: nat, k: nat, t: nat)
    requires
        1 <= bit <= 6,
        chunk.len() <= enc_spec(bit),
        k < dec_spec(bit),
        t < bit,
    ensures
        value_bit(group(pack(chunk, enc_spec(bit)), bit, dec_spec(bit), k), bit, t as int)
            == input_bit(chunk, (k * bit + t) as int),
{
    let e = enc_spec(bit);
    let d = dec_spec(bit);
    lemma_sizes(bit);
    lemma_pack_bytes(chunk, e);
    lemma2_to64();
    let x = pack(chunk, e);
    let p = k * bit + t;
    assert(0 <= p < 8 * e && bit * (d - 1 - k) + (bit - 1 - t) == 8 * e - 1 - p) by (nonlinear_arith)
        requires
            p == k * bit + t,
            k < d,
            t < bit,
            bit * d == 8 * e,
    ;
    let a = (bit * (d - 1 - k)) as nat;
    let s = (bit - 1 - t) as nat;
    lemma_bit_of_low_bits(x / pow2(a), bit, s);
    lemma_div_pow2_twice(x, a, s);
    let low = (8 * e - 1 - p) as nat;
    assert(value_bit(group(x, bit, d, k), bit, t as int) == (x / pow2(low)) % 2);
    let j = p / 8;
    let u = p % 8;
    if j < chunk.len() {
        let b = (8 * (e - 1 - j)) as nat;
        let c = (7 - u) as nat;
        assert(group(x, 8, e, j) == chunk[j as int]);
        assert(chunk[j as int] as nat == (x / pow2(b)) % pow2(8));
        lemma_bit_of_low_bits(x / pow2(b), 8, c);
        lemma_div_pow2_twice(x, b, c);
        assert(b + c == low);
    } else {
        let zeros = (8 * (e - chunk.len())) as nat;
        lemma_low_digits_zero(x, 1, 8 * e, p, zeros);
        assert((1 * (8 * e - 1 - p)) as nat == low);
    }
}

/// Each symbol of an encoding stands for a value below `2^bit`, whose
/// `t`-th bit is the bit of the input at position `k * bit + t`, and zero
/// where the input has ended.
pub proof fn lemma_symbol_bits<B: Base>(base: &B, input: Seq<u8>, k: int, t: int)
    requires
        base.inv(),
        0 <= k < encode_nopad_len_spec(base.width(), input.len()),
        0 <= t < base.width(),
    ensures
        symbol_at(base, input, k) == base.symbol(symbol_value(base.width(), input, k) as u8),
        symbol_value(base.width(), input, k) < pow2(base.width()),
        value_bit(symbol_value(base.width(), input, k), base.width(), t) == input_bit(
            input,
            k * base.width() + t,
        ),
{
    base.lemma_inv();
    let bit = base.width();
    lemma_symbol_index(
        base,
        block_of(input, enc_spec(bit), k / (dec_spec(bit) as int)),
        k % (dec_spec(bit) as int),
    );
    let e = enc_spec(bit) as int;
    let d = dec_spec(bit) as int;
    lemma_sizes(bit);
    lemma_lengths(bit, input.len());
    let n = input.len() as int / e;
    let blk = k / d;
    let kk = k % d;
    let chunk = block_of(input, e as nat, blk);
    let p = kk * bit + t;
    let i = k * bit + t;
    lemma_fundamental_div_mod(k, d);
    vstd::arithmetic::div_mod::lemma_mod_bound(k, d);
    vstd::arithmetic::div_mod::lemma_div_pos_is_pos(k, d);
    lemma_fundamental_div_mod(input.len() as int, e);
    vstd::arithmetic::div_mod::lemma_mod_bound(input.len() as int, e);
    assert(k == blk * d + kk && 0 <= kk < d && 0 <= blk) by (nonlinear_arith)
        requires
            k == d * blk + kk,
            0 <= kk < d,
            0 <= blk,
    ;
    assert(blk <= n) by (nonlinear_arith)
        requires
            k == blk * d + kk,
            0 <= kk,
            k < n * d + d,
            0 < d,
    ;
    assert(i == blk * (8 * e) + p && 0 <= p < 8 * e) by (nonlinear_arith)
        requires
            i == k * bit + t,
            p == kk * bit + t,
            k == blk * d + kk,
            0 <= kk < d,
            0 <= t < bit,
            d * bit == 8 * e,
    ;
    assert((blk + 1) * e == blk * e + e && 0 <= blk * e <= n * e && n * e <= input.len())
        by (nonlinear_arith)
        requires
            0 <= blk <= n,
            0 < e,
            input.len() == e * n + (input.len() as int) % e,
            0 <= (input.len() as int) % e,
    ;
    assert(chunk.len() <= e);
    lemma_block_bits(chunk, bit, kk as nat, t as nat);
    assert(input_bit(chunk, p) == input_bit(input, i)) by {
        let j = p / 8;
        let u = p % 8;
        assert(i == (blk * e + j) * 8 + u) by (nonlinear_arith)
            requires
                i == blk * (8 * e) + p,
                p == 8 * j + u,
        ;
        vstd::arithmetic::div_mod::lemma_fundamental_div_mod_converse(i, 8, blk * e + j, u);
        assert(i / 8 == blk * e + j && i % 8 == p % 8);
        if j < chunk.len() {
            assert(chunk[j] == input[blk * e + j]);
        }
    }
}

} // verus!
