//! Why an encoding can be read back: the values of a block's symbols
//! determine the bytes of the block.

use vstd::prelude::*;
use vstd::arithmetic::power2::{
    lemma2_to64, lemma2_to64_rest, lemma_pow2_adds, lemma_pow2_pos, pow2,
};
use vstd::arithmetic::div_mod::{
    lemma_basic_div, lemma_div_denominator, lemma_fundamental_div_mod,
    lemma_fundamental_div_mod_converse,
};
use crate::base::{enc_spec, dec_spec, lemma_block_geometry};
use crate::base::{Base, padding_is_no_symbol, symbols_distinct};
use crate::model::{
    block_of, encode_nopad_len_spec, encoded, encoded_nopad, group, lemma_lengths,
    lemma_padding_placement, lemma_sizes, lemma_symbol_index, pack,
};
use crate::tool::lemma_div_ceil;

verus! {

/// The number of `count` digits of `bit` bits each that starts, at its
/// most significant end, with `digits`; the missing digits are zero.
pub open spec fn join(digits: Seq<nat>, bit: nat, count: nat) -> nat
    recommends
        digits.len() <= count,
    decreases digits.len(),
{
    if digits.len() == 0 {
        0
    } else {
        join(digits.drop_last(), bit, count) + digits.last() * pow2(
            (bit * (count - digits.len())) as nat,
        )
    }
}

/// The `count` digits of `bit` bits of `x`, most significant first.
pub open spec fn digits_of(x: nat, bit: nat, count: nat) -> Seq<nat> {
    Seq::new(count, |k: int| group(x, bit, count, k as nat))
}

/// The first `m` digits of a number, joined again, give the number without
/// its lower digits.
proof fn lemma_join_prefix(x: nat, bit: nat, count: nat, m: nat)
    requires
        m <= count,
        x < pow2(bit * count),
    ensures
        join(digits_of(x, bit, count).subrange(0, m as int), bit, count) == (x / pow2(
            (bit * (count - m)) as nat,
        )) * pow2((bit * (count - m)) as nat),
    decreases m,
{
    let digits = digits_of(x, bit, count);
    if m == 0 {
        assert(bit * (count - 0) == bit * count) by (nonlinear_arith);
        lemma_basic_div(x as int, pow2(bit * count) as int);
        assert(digits.subrange(0, 0).len() == 0);
        let whole = pow2((bit * (count - 0)) as nat);
        assert(x / whole == 0);
        assert((x / whole) * whole == 0) by (nonlinear_arith)
            requires
                x / whole == 0,
        ;
    } else {
        lemma_join_prefix(x, bit, count, (m - 1) as nat);
        let prefix = digits.subrange(0, m as int);
        assert(prefix.drop_last() =~= digits.subrange(0, m - 1));
        let low = (bit * (count - m)) as nat;
        let p = pow2(low);
        let b = pow2(bit);
        lemma_pow2_pos(low);
        lemma_pow2_pos(bit);
        lemma_pow2_adds(low, bit);
        assert(low + bit == bit * (count - (m - 1)) && low == bit * (count - 1 - (m - 1)))
            by (nonlinear_arith)
            requires
                low == bit * (count - m),
        ;
        assert(prefix.last() == (x / p) % b);
        let y = x / p;
        lemma_div_denominator(x as int, p as int, b as int);
        lemma_fundamental_div_mod(y as int, b as int);
        let q = y / b;
        let r = y % b;
        assert(q * (p * b) + r * p == y * p) by (nonlinear_arith)
            requires
                y == b * q + r,
        ;
        assert(q == x / (p * b));
        assert(pow2((bit * (count - (m - 1))) as nat) == p * b);
        assert(join(prefix.drop_last(), bit, count) == q * (p * b));
        assert(prefix.len() == m);
        assert(join(prefix, bit, count) == join(prefix.drop_last(), bit, count) + prefix.last()
            * p);
    }
}

/// The digits of a number, joined again, give the number.
pub proof fn lemma_join_digits(x: nat, bit: nat, count: nat)
    requires
        x < pow2(bit * count),
    ensures
        join(digits_of(x, bit, count), bit, count) == x,
{
    lemma_join_prefix(x, bit, count, count);
    assert(digits_of(x, bit, count).subrange(0, count as int) =~= digits_of(x, bit, count));
    assert(bit * (count - count) == 0) by (nonlinear_arith);
    lemma2_to64();
    let unit = pow2((bit * (count - count)) as nat);
    assert((x / unit) * unit == x) by (nonlinear_arith)
        requires
            unit == 1,
    ;
}

/// What the `i`-th byte of `chunk` adds to the number of the block.
spec fn term(chunk: Seq<u8>, enc: nat, i: int) -> nat {
    if i < chunk.len() {
        chunk[i] as nat * pow2((8 * (enc - 1 - i)) as nat)
    } else {
        0
    }
}

/// The number of a block is the sum of what its bytes add.
proof fn lemma_pack_terms(chunk: Seq<u8>, enc: nat)
    requires
        chunk.len() <= enc <= 5,
    ensures
        pack(chunk, enc) == term(chunk, enc, 0) + term(chunk, enc, 1) + term(chunk, enc, 2) + term(
            chunk,
            enc,
            3,
        ) + term(chunk, enc, 4),
    decreases chunk.len(),
{
    if chunk.len() > 0 {
        let front = chunk.drop_last();
        lemma_pack_terms(front, enc);
        assert forall|i: int| 0 <= i < front.len() implies term(front, enc, i) == term(
            chunk,
            enc,
            i,
        ) by {
            assert(front[i] == chunk[i]);
        }
        assert(chunk.last() as nat * pow2((8 * (enc - chunk.len())) as nat) == term(
            chunk,
            enc,
            chunk.len() - 1,
        ));
    }
}

/// The bytes of a number of five bytes, read back from it.
proof fn lemma_five_bytes(c0: u64, c1: u64, c2: u64, c3: u64, c4: u64, x: u64)
    requires
        c0 < 256,
        c1 < 256,
        c2 < 256,
        c3 < 256,
        c4 < 256,
        x == c0 * 0x100000000 + c1 * 0x1000000 + c2 * 0x10000 + c3 * 0x100 + c4,
    ensures
        x < 0x10000000000,
        (x / 0x100000000) % 256 == c0,
        (x / 0x1000000) % 256 == c1,
        (x / 0x10000) % 256 == c2,
        (x / 0x100) % 256 == c3,
        x % 256 == c4,
        c0 == 0 ==> x < 0x100000000,
        c0 == 0 && c1 == 0 ==> x < 0x1000000,
        c0 == 0 && c1 == 0 && c2 == 0 ==> x < 0x10000,
        c0 == 0 && c1 == 0 && c2 == 0 && c3 == 0 ==> x < 0x100,
        c4 == 0 ==> x % 0x100 == 0,
        c4 == 0 && c3 == 0 ==> x % 0x10000 == 0,
        c4 == 0 && c3 == 0 && c2 == 0 ==> x % 0x1000000 == 0,
        c4 == 0 && c3 == 0 && c2 == 0 && c1 == 0 ==> x % 0x100000000 == 0,
        c4 == 0 && c3 == 0 && c2 == 0 && c1 == 0 && c0 == 0 ==> x == 0,
{
    assert((c4 == 0 ==> x % 0x100 == 0) && (c4 == 0 && c3 == 0 ==> x % 0x10000 == 0) && (c4 == 0
        && c3 == 0 && c2 == 0 ==> x % 0x1000000 == 0) && (c4 == 0 && c3 == 0 && c2 == 0 && c1 == 0
        ==> x % 0x100000000 == 0) && (c4 == 0 && c3 == 0 && c2 == 0 && c1 == 0 && c0 == 0 ==> x
        == 0)) by (bit_vector)
        requires
            c0 < 256,
            c1 < 256,
            c2 < 256,
            c3 < 256,
            c4 < 256,
            x == c0 * 0x100000000 + c1 * 0x1000000 + c2 * 0x10000 + c3 * 0x100 + c4,
    ;
    assert(x < 0x10000000000 && (x / 0x100000000) % 256 == c0 && (x / 0x1000000) % 256 == c1 && (x
        / 0x10000) % 256 == c2 && (x / 0x100) % 256 == c3 && x % 256 == c4 && (c0 == 0 ==> x
        < 0x100000000) && (c0 == 0 && c1 == 0 ==> x < 0x1000000) && (c0 == 0 && c1 == 0 && c2 == 0
        ==> x < 0x10000) && (c0 == 0 && c1 == 0 && c2 == 0 && c3 == 0 ==> x < 0x100))
        by (bit_vector)
        requires
            c0 < 256,
            c1 < 256,
            c2 < 256,
            c3 < 256,
            c4 < 256,
            x == c0 * 0x100000000 + c1 * 0x1000000 + c2 * 0x10000 + c3 * 0x100 + c4,
    ;
}

/// What a byte adds, given the weight of its place.
proof fn lemma_term_value(chunk: Seq<u8>, enc: nat, i: int, weight: nat)
    requires
        0 <= i < enc,
        pow2((8 * (enc - 1 - i)) as nat) == weight,
    ensures
        term(chunk, enc, i) == byte_or_zero(chunk, i) * weight,
{
    let c = byte_or_zero(chunk, i) as nat;
    let p = pow2((8 * (enc - 1 - i)) as nat);
    assert(c * p == c * weight) by (nonlinear_arith)
        requires
            p == weight,
    ;
}

/// The `i`-th byte of a block, zero past the end of `chunk`.
spec fn byte_or_zero(chunk: Seq<u8>, i: int) -> u64 {
    if 0 <= i < chunk.len() {
        chunk[i] as u64
    } else {
        0
    }
}

/// Each byte of a block can be read from the number of the block, which
/// is below `2^(8 * enc)` and has zeros in the place of the missing bytes.
pub proof fn lemma_pack_bytes(chunk: Seq<u8>, enc: nat)
    requires
        1 <= enc <= 5,
        chunk.len() <= enc,
    ensures
        forall|j: nat|
            j < chunk.len() ==> #[trigger] group(pack(chunk, enc), 8, enc, j) == chunk[j as int],
        pack(chunk, enc) < pow2(8 * enc),
        pack(chunk, enc) % pow2((8 * (enc - chunk.len())) as nat) == 0,
{
    lemma_pack_terms(chunk, enc);
    lemma2_to64();
    lemma2_to64_rest();
    let x = pack(chunk, enc);
    let skip = 5 - enc;
    let c0 = byte_or_zero(chunk, 0 - skip);
    let c1 = byte_or_zero(chunk, 1 - skip);
    let c2 = byte_or_zero(chunk, 2 - skip);
    let c3 = byte_or_zero(chunk, 3 - skip);
    let c4 = byte_or_zero(chunk, 4 - skip);
    assert(pow2(0) == 1 && pow2(8) == 0x100 && pow2(16) == 0x10000 && pow2(24) == 0x1000000
        && pow2(32) == 0x100000000 && pow2(40) == 0x10000000000);
    let sum = c0 * 0x100000000 + c1 * 0x1000000 + c2 * 0x10000 + c3 * 0x100 + c4;
    if enc == 1 {
        lemma_term_value(chunk, enc, 0, 1);
    } else if enc == 2 {
        lemma_term_value(chunk, enc, 0, 0x100);
        lemma_term_value(chunk, enc, 1, 1);
    } else if enc == 3 {
        lemma_term_value(chunk, enc, 0, 0x10000);
        lemma_term_value(chunk, enc, 1, 0x100);
        lemma_term_value(chunk, enc, 2, 1);
    } else if enc == 4 {
        lemma_term_value(chunk, enc, 0, 0x1000000);
        lemma_term_value(chunk, enc, 1, 0x10000);
        lemma_term_value(chunk, enc, 2, 0x100);
        lemma_term_value(chunk, enc, 3, 1);
    } else {
        lemma_term_value(chunk, enc, 0, 0x100000000);
        lemma_term_value(chunk, enc, 1, 0x1000000);
        lemma_term_value(chunk, enc, 2, 0x10000);
        lemma_term_value(chunk, enc, 3, 0x100);
        lemma_term_value(chunk, enc, 4, 1);
    }
    assert(x == sum);
    lemma_five_bytes(c0, c1, c2, c3, c4, x as u64);
    assert forall|j: nat| j < chunk.len() implies #[trigger] group(x, 8, enc, j) == chunk[j as int]
    by {
        let shift = (8 * (enc - 1 - j)) as nat;
        let place = j + skip;
        let weight = pow2(shift);
        assert(chunk[j as int] == byte_or_zero(chunk, j as int));
        assert(group(x, 8, enc, j) == (x / weight) % 256);
        if place == 0 {
            assert(shift == 32 && weight == 0x100000000);
        } else if place == 1 {
            assert(shift == 24 && weight == 0x1000000);
        } else if place == 2 {
            assert(shift == 16 && weight == 0x10000);
        } else if place == 3 {
            assert(shift == 8 && weight == 0x100);
        } else {
            assert(shift == 0 && weight == 1);
            assert(x / weight == x) by (nonlinear_arith)
                requires
                    weight == 1,
            ;
        }
    }
    let missing = (8 * (enc - chunk.len())) as nat;
    let unit = pow2(missing);
    if missing == 0 {
        assert(x % unit == 0) by (nonlinear_arith)
            requires
                unit == 1,
        ;
    } else if missing == 8 {
        assert(c4 == 0 && unit == 0x100);
    } else if missing == 16 {
        assert(c4 == 0 && c3 == 0 && unit == 0x10000);
    } else if missing == 24 {
        assert(c4 == 0 && c3 == 0 && c2 == 0 && unit == 0x1000000);
    } else if missing == 32 {
        assert(c4 == 0 && c3 == 0 && c2 == 0 && c1 == 0 && unit == 0x100000000);
    } else {
        assert(missing == 40);
        assert(c4 == 0 && c3 == 0 && c2 == 0 && c1 == 0 && c0 == 0);
        assert(x == 0);
        lemma_pow2_pos(missing);
        assert(x % unit == 0) by (nonlinear_arith)
            requires
                x == 0,
                unit > 0,
        ;
    }
}

/// A number with `s` zero bits at its end has zero digits there.
pub proof fn lemma_low_digits_zero(x: nat, bit: nat, count: nat, k: nat, s: nat)
    requires
        k < count,
        bit * (count - k) <= s,
        x % pow2(s) == 0,
    ensures
        group(x, bit, count, k) == 0,
{
    let t = (bit * (count - 1 - k)) as nat;
    assert(t + bit == bit * (count - k)) by (nonlinear_arith)
        requires
            t == bit * (count - 1 - k),
    ;
    let rest = (s - t - bit) as nat;
    lemma_pow2_pos(s);
    lemma_pow2_pos(t);
    lemma_pow2_pos(bit);
    lemma_pow2_pos(rest);
    lemma_pow2_adds(rest, bit);
    lemma_pow2_adds(rest + bit, t);
    lemma_fundamental_div_mod(x as int, pow2(s) as int);
    let q = x / pow2(s);
    let high = q * pow2(rest);
    assert(x == (high * pow2(bit)) * pow2(t)) by (nonlinear_arith)
        requires
            x == pow2(s) * q,
            pow2(s) == (pow2(rest) * pow2(bit)) * pow2(t),
            high == q * pow2(rest),
    ;
    vstd::arithmetic::div_mod::lemma_div_multiples_vanish(
        (high * pow2(bit)) as int,
        pow2(t) as int,
    );
    assert((high * pow2(bit)) * pow2(t) == pow2(t) * (high * pow2(bit))) by (nonlinear_arith);
    vstd::arithmetic::div_mod::lemma_mod_multiples_basic(high as int, pow2(bit) as int);
}

/// The values of the symbols of the block that starts with `chunk`.
pub open spec fn block_values(chunk: Seq<u8>, bit: nat) -> Seq<nat> {
    digits_of(pack(chunk, enc_spec(bit)), bit, dec_spec(bit))
}

/// The `j`-th byte of the block whose symbols have the values `values`.
pub open spec fn block_byte(values: Seq<nat>, bit: nat, j: nat) -> nat {
    group(join(values, bit, dec_spec(bit)), 8, enc_spec(bit), j)
}

/// The bytes of a block, whole or short, can be read back from the values
/// of its symbols, and the symbols past those of a short block are zero.
pub proof fn lemma_block_round_trip(chunk: Seq<u8>, bit: nat)
    requires
        1 <= bit <= 6,
        chunk.len() <= enc_spec(bit),
    ensures
        forall|j: nat|
            j < chunk.len() ==> #[trigger] block_byte(block_values(chunk, bit), bit, j)
                == chunk[j as int],
        forall|k: nat|
            encode_nopad_len_spec(bit, chunk.len()) <= k < dec_spec(bit) ==> #[trigger] group(
                pack(chunk, enc_spec(bit)),
                bit,
                dec_spec(bit),
                k,
            ) == 0,
{
    let e = enc_spec(bit);
    let d = dec_spec(bit);
    let x = pack(chunk, e);
    lemma_block_geometry(bit);
    lemma_pack_bytes(chunk, e);
    assert(bit * d == 8 * e) by (nonlinear_arith)
        requires
            e * 8 == d * bit,
    ;
    lemma_join_digits(x, bit, d);
    assert forall|k: nat| encode_nopad_len_spec(bit, chunk.len()) <= k < d implies #[trigger] group(
        x,
        bit,
        d,
        k,
    ) == 0 by {
        let s = (8 * (e - chunk.len())) as nat;
        let olen = encode_nopad_len_spec(bit, chunk.len());
        lemma_div_ceil(8 * chunk.len(), bit);
        assert(bit * olen >= 8 * chunk.len()) by {
            lemma_fundamental_div_mod((8 * chunk.len()) as int, bit as int);
            assert(bit * (((8 * chunk.len()) as int) / (bit as int) + 1) == bit * (((8
                * chunk.len()) as int) / (bit as int)) + bit) by (nonlinear_arith);
        }
        assert(bit * (d - k) <= s) by (nonlinear_arith)
            requires
                bit * d == 8 * e,
                bit * olen >= 8 * chunk.len(),
                olen <= k,
                s == 8 * (e - chunk.len()),
        ;
        lemma_low_digits_zero(x, bit, d, k, s);
    }
}

/// The value that the symbol `c` stands for.
pub open spec fn value_of<B: Base>(base: &B, c: u8) -> nat {
    (choose|x: u8| x < pow2(base.width()) && base.symbol(x) == c) as nat
}

/// The values of the symbols of the `i`-th block of `text`, zero where the
/// text has ended.
pub open spec fn text_values<B: Base>(base: &B, text: Seq<u8>, i: int) -> Seq<nat> {
    let d = dec_spec(base.width());
    Seq::new(
        d,
        |k: int|
            if i * d + k < text.len() {
                value_of(base, text[i * d + k])
            } else {
                0
            },
    )
}

/// The bytes that the symbols of `text` stand for: as many as its bits
/// fill, each read from the values of its block.
pub open spec fn decoded<B: Base>(base: &B, text: Seq<u8>) -> Seq<u8> {
    let bit = base.width();
    let e = enc_spec(bit) as int;
    Seq::new(
        (text.len() * bit) / 8,
        |i: int| block_byte(text_values(base, text, i / e), bit, (i % e) as nat) as u8,
    )
}

/// The symbols of `len` bytes hold `len` whole bytes.
proof fn lemma_decoded_len(bit: nat, len: nat)
    requires
        1 <= bit <= 6,
    ensures
        (encode_nopad_len_spec(bit, len) * bit) / 8 == len,
{
    let t = encode_nopad_len_spec(bit, len);
    lemma_div_ceil(8 * len, bit);
    lemma_fundamental_div_mod((8 * len) as int, bit as int);
    let q = (8 * len) / bit;
    let r = (8 * len) % bit;
    assert(8 * len <= t * bit < 8 * len + 8) by (nonlinear_arith)
        requires
            8 * len == bit * q + r,
            0 <= r < bit,
            bit <= 6,
            t == if r == 0 { q } else { q + 1 },
    ;
}

/// One byte of the input, read back from the unpadded encoding.
proof fn lemma_byte_round_trip<B: Base>(base: &B, input: Seq<u8>, i: int)
    requires
        base.inv(),
        symbols_distinct(base),
        0 <= i < input.len(),
    ensures
        block_byte(
            text_values(base, encoded_nopad(base, input), i / (enc_spec(base.width()) as int)),
            base.width(),
            (i % (enc_spec(base.width()) as int)) as nat,
        ) == input[i],
{
    base.lemma_inv();
    let bit = base.width();
    let e = enc_spec(bit) as int;
    let d = dec_spec(bit) as int;
    lemma_sizes(bit);
    lemma_lengths(bit, input.len());
    let text = encoded_nopad(base, input);
    let n = input.len() as int / e;
    let blk = i / e;
    let j = i % e;
    lemma_fundamental_div_mod(i, e);
    vstd::arithmetic::div_mod::lemma_mod_bound(i, e);
    vstd::arithmetic::div_mod::lemma_div_is_ordered(i, input.len() as int, e);
    vstd::arithmetic::div_mod::lemma_div_pos_is_pos(i, e);
    assert(e * blk == blk * e) by (nonlinear_arith);
    assert(i == blk * e + j && 0 <= j < e && 0 <= blk <= n);
    let chunk = block_of(input, e as nat, blk);
    assert((blk + 1) * e == blk * e + e) by (nonlinear_arith);
    assert(j < chunk.len() && chunk[j] == input[i]);
    lemma_block_round_trip(chunk, bit);
    assert forall|k: int| 0 <= k < d implies text_values(base, text, blk)[k] == block_values(
        chunk,
        bit,
    )[k] by {
        let g = group(pack(chunk, e as nat), bit, d as nat, k as nat);
        lemma_symbol_index(base, chunk, k);
        assert(blk * d <= n * d) by (nonlinear_arith)
            requires
                blk <= n,
                d > 0,
        ;
        if blk * d + k < text.len() {
            lemma_fundamental_div_mod_converse(blk * d + k, d, blk, k);
            let c = text[blk * d + k];
            assert(c == base.symbol(g as u8));
            let v = choose|x: u8| x < pow2(bit) && base.symbol(x) == c;
            assert((g as u8) < pow2(bit) && base.symbol(g as u8) == c);
            assert(v == g as u8);
        } else {
            if blk < n {
                assert(blk * d + d <= n * d) by (nonlinear_arith)
                    requires
                        blk + 1 <= n,
                        d > 0,
                ;
            }
            assert(blk == n);
            assert(chunk.len() == input.len() % (e as nat));
            assert(g == 0);
        }
    }
    assert(text_values(base, text, blk) =~= block_values(chunk, bit));
}

/// Decoding the unpadded encoding of `input` gives `input`, for a base
/// whose symbols are distinct.
pub proof fn lemma_round_trip_nopad<B: Base>(base: &B, input: Seq<u8>)
    requires
        base.inv(),
        symbols_distinct(base),
    ensures
        decoded(base, encoded_nopad(base, input)) == input,
{
    base.lemma_inv();
    lemma_decoded_len(base.width(), input.len());
    assert forall|i: int| 0 <= i < input.len() implies decoded(
        base,
        encoded_nopad(base, input),
    )[i] == input[i] by {
        lemma_byte_round_trip(base, input, i);
    }
    assert(decoded(base, encoded_nopad(base, input)) =~= input);
}

/// The number of bytes of `text` before its first padding character.
pub open spec fn symbol_count<B: Base>(base: &B, text: Seq<u8>) -> nat
    decreases text.len(),
{
    if text.len() == 0 || text[0] == base.padding() {
        0
    } else {
        1 + symbol_count(base, text.drop_first())
    }
}

/// The bytes that a padded text stands for: those of its symbols, which
/// end where the padding begins.
pub open spec fn decoded_padded<B: Base>(base: &B, text: Seq<u8>) -> Seq<u8> {
    decoded(base, text.subrange(0, symbol_count(base, text) as int))
}

/// A text that begins with `m` bytes other than the padding character,
/// and ends there or goes on with one, has `m` symbols.
proof fn lemma_symbol_count<B: Base>(base: &B, text: Seq<u8>, m: nat)
    requires
        m <= text.len(),
        forall|k: int| 0 <= k < m ==> text[k] != base.padding(),
        m < text.len() ==> text[m as int] == base.padding(),
    ensures
        symbol_count(base, text) == m,
    decreases m,
{
    if m > 0 {
        let rest = text.drop_first();
        assert forall|k: int| 0 <= k < m - 1 implies rest[k] != base.padding() by {
            assert(rest[k] == text[k + 1]);
        }
        lemma_symbol_count(base, rest, (m - 1) as nat);
    }
}

/// Decoding the padded encoding of `input` gives `input`, for a base
/// whose symbols are distinct and whose padding character is none of them.
pub proof fn lemma_round_trip<B: Base>(base: &B, input: Seq<u8>)
    requires
        base.inv(),
        symbols_distinct(base),
        padding_is_no_symbol(base),
    ensures
        decoded_padded(base, encoded(base, input)) == input,
{
    lemma_padding_placement(base, input);
    lemma_symbol_count(base, encoded(base, input), encoded_nopad(base, input).len());
    lemma_round_trip_nopad(base, input);
}

} // verus!
