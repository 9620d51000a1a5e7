//! Generic encoding module.

use vstd::prelude::*;
use vstd::arithmetic::power2::{pow2, lemma2_to64, lemma_pow2_pos};
use vstd::arithmetic::div_mod::{
    lemma_fundamental_div_mod, lemma_fundamental_div_mod_converse, lemma_mod_bound,
};
use vstd::bits::{
    lemma_u64_low_bits_mask_is_mod, lemma_u64_shl_is_mul, lemma_u64_shr_is_div, low_bits_mask,
};
use vstd::slice::slice_subrange;
use vstd::utf8::{
    decode_utf8, encode_utf8, encode_utf8_decode_utf8, encode_utf8_valid_utf8, is_ascii_chars,
    is_ascii_chars_encode_utf8, valid_utf8,
};
use crate::base::{Base, enc, dec, mask, enc_spec, dec_spec};
use crate::model::{
    ascii_text, block_of, block_symbol, encode_len_spec, encode_nopad_len_spec, encoded,
    encoded_nopad, group, lemma_encoded_ascii, lemma_lengths, lemma_sizes, pack, symbol_at,
};
use crate::tool::{chunk, div_ceil};

verus! {

/// Whether the low `s` bits of `x` are zero.
spec fn low_zero(x: u64, s: u64) -> bool {
    (x >> s) << s == x
}

/// Placing a byte into eight zero bits of the accumulator adds its value
/// at that position and leaves the bits below untouched.
proof fn lemma_place(x: u64, b: u8, s: u64)
    requires
        s <= 32,
        s % 8 == 0,
        low_zero(x, (s + 8) as u64),
    ensures
        (x | ((b as u64) << s)) == x + b as nat * pow2(s as nat),
        low_zero(x | ((b as u64) << s), s),
{
    let w: u64 = b as u64;
    let t: u64 = (s + 8) as u64;
    assert((x | (w << s)) == x + (w << s) && ((x | (w << s)) >> s) << s == (x | (w << s)))
        by (bit_vector)
        requires
            s <= 32,
            t == s + 8,
            w < 256,
            (x >> t) << t == x,
    ;
    lemma2_to64();
    assert(s == 0 || s == 8 || s == 16 || s == 24 || s == 32);
    assert(w * pow2(s as nat) <= u64::MAX) by (nonlinear_arith)
        requires
            w < 256,
            pow2(s as nat) <= 0x100000000,
    ;
    lemma_u64_shl_is_mul(w, s);
}

/// Shifting, truncating to a byte and masking extracts one group.
proof fn lemma_extract(x: u64, t: u64, m: u8, bit: nat)
    requires
        t < 64,
        1 <= bit <= 6,
        m == pow2(bit) - 1,
    ensures
        ((#[verifier::truncate] ((x >> t) as u8)) & m) == (x as nat / pow2(t as nat)) % pow2(bit),
        ((#[verifier::truncate] ((x >> t) as u8)) & m) < pow2(bit),
{
    let v: u64 = x >> t;
    let m64: u64 = m as u64;
    lemma2_to64();
    assert(((#[verifier::truncate] (v as u8)) & m) as u64 == v & m64) by (bit_vector)
        requires
            m64 == m as u64,
    ;
    lemma_u64_shr_is_div(x, t);
    assert(low_bits_mask(bit) as u64 == m64);
    lemma_u64_low_bits_mask_is_mod(v, bit);
    lemma_pow2_pos(bit);
    lemma_mod_bound(v as int, pow2(bit) as int);
}

/// Encodes at most one block: writes the first `olen` symbols of the
/// block that starts with `input` at `output[at..at + olen]`.
fn encode_block<B: Base>(base: &B, input: &[u8], output: &mut [u8], at: usize, olen: usize)
    requires
        base.inv(),
        input@.len() <= enc_spec(base.width()),
        olen <= dec_spec(base.width()),
        at + olen <= old(output)@.len(),
    ensures
        final(output)@.len() == old(output)@.len(),
        forall|i: int|
            0 <= i < at || at + olen <= i < old(output)@.len() ==> final(output)@[i] == old(
                output,
            )@[i],
        forall|i: int|
            at <= i < at + olen ==> #[trigger] final(output)@[i] == block_symbol(
                base,
                input@,
                i - at,
            ),
{
    proof {
        base.lemma_inv();
        lemma_sizes(base.width());
    }
    let e: usize = enc(base);
    let d: usize = dec(base);
    let bit: usize = base.bit();
    let m: u8 = mask(base);
    let ilen: usize = input.len();
    let mut x: u64 = 0;
    let mut j: usize = 0;
    proof {
        vstd::slice::axiom_spec_len(&*output);
        assert((0u64 >> 40) << 40 == 0u64) by (bit_vector);
        assert((0u64 >> 24) << 24 == 0u64) by (bit_vector);
        assert((0u64 >> 8) << 8 == 0u64) by (bit_vector);
    }
    while j < ilen
        invariant
            j <= ilen <= e <= 5,
            ilen == input@.len(),
            e == enc_spec(base.width()),
            x == pack(input@.subrange(0, j as int), e as nat),
            low_zero(x, (8 * (e - j)) as u64),
        decreases ilen - j,
    {
        let s: u64 = (8 * (e - 1 - j)) as u64;
        let b: u8 = input[j];
        proof {
            lemma_place(x, b, s);
            let next = input@.subrange(0, j + 1);
            assert(next.drop_last() =~= input@.subrange(0, j as int));
            assert(next.last() == b);
        }
        x = x | ((b as u64) << s);
        j += 1;
    }
    assert(input@.subrange(0, ilen as int) =~= input@);
    let mut k: usize = 0;
    while k < olen
        invariant
            k <= olen <= d <= 8,
            1 <= bit <= 6,
            bit == base.width(),
            d == dec_spec(base.width()),
            e == enc_spec(base.width()),
            m == pow2(bit as nat) - 1,
            base.inv(),
            at + olen <= output@.len() <= usize::MAX,
            output@.len() == old(output)@.len(),
            x == pack(input@, e as nat),
            forall|i: int|
                0 <= i < at || at + k <= i < output@.len() ==> output@[i] == old(output)@[i],
            forall|i: int|
                at <= i < at + k ==> #[trigger] output@[i] == block_symbol(base, input@, i - at),
        decreases olen - k,
    {
        assert(bit * (d - 1 - k) <= 42) by (nonlinear_arith)
            requires
                bit <= 6,
                d <= 8,
                k < d,
        ;
        let t: u64 = (bit * (d - 1 - k)) as u64;
        proof {
            lemma_extract(x, t, m, bit as nat);
        }
        let y: u8 = #[verifier::truncate] ((x >> t) as u8);
        let c: u8 = base.sym(y & m);
        output[at + k] = c;
        k += 1;
    }
}

/// Encodes the last, short block: its symbols at `output[at..]`, then
/// padding up to the end of `output`.
fn encode_last<B: Base>(base: &B, input: &[u8], output: &mut [u8], at: usize)
    requires
        base.inv(),
        input@.len() < enc_spec(base.width()),
        at + encode_nopad_len_spec(base.width(), input@.len()) <= old(output)@.len(),
    ensures
        final(output)@.len() == old(output)@.len(),
        forall|i: int| 0 <= i < at ==> final(output)@[i] == old(output)@[i],
        forall|i: int|
            at <= i < at + encode_nopad_len_spec(base.width(), input@.len())
                ==> #[trigger] final(output)@[i] == block_symbol(base, input@, i - at),
        forall|i: int|
            at + encode_nopad_len_spec(base.width(), input@.len()) <= i < old(output)@.len()
                ==> #[trigger] final(output)@[i] == base.padding(),
{
    proof {
        base.lemma_inv();
        lemma_sizes(base.width());
        lemma_lengths(base.width(), input@.len());
    }
    let ilen: usize = input.len();
    let total: usize = output.len();
    let olen: usize = div_ceil(8 * ilen, base.bit());
    encode_block(base, input, output, at, olen);
    let mut j: usize = at + olen;
    while j < total
        invariant
            base.inv(),
            at + olen <= j,
            output@.len() == total,
            total == old(output)@.len(),
            olen == encode_nopad_len_spec(base.width(), input@.len()),
            forall|i: int| 0 <= i < at ==> output@[i] == old(output)@[i],
            forall|i: int|
                at <= i < at + olen ==> #[trigger] output@[i] == block_symbol(base, input@, i - at),
            forall|i: int| at + olen <= i < j ==> #[trigger] output@[i] == base.padding(),
        decreases total - j,
    {
        output[j] = base.pad();
        j += 1;
    }
}

/// Converts an input length to its output length (with padding).
///
/// This function is meant to be used in conjunction with [`encode_mut`].
pub fn encode_len<B: Base>(base: &B, len: usize) -> (r: usize)
    requires
        base.inv(),
        encode_len_spec(base.width(), len as nat) <= usize::MAX,
    ensures
        r == encode_len_spec(base.width(), len as nat),
{
    proof {
        base.lemma_inv();
        lemma_sizes(base.width());
    }
    div_ceil(len, enc(base)) * dec(base)
}

/// Converts an input length to its output length (without padding).
///
/// This function is meant to be used in conjunction with
/// [`encode_nopad_mut`].
pub fn encode_nopad_len<B: Base>(base: &B, len: usize) -> (r: usize)
    requires
        base.inv(),
        8 * len <= usize::MAX,
    ensures
        r == encode_nopad_len_spec(base.width(), len as nat),
{
    proof {
        base.lemma_inv();
    }
    div_ceil(8 * len, base.bit())
}

/// For a block index below the number of blocks, the block lies within
/// the input and the output.
proof fn lemma_block_bounds(i: int, n: int, e: int, d: int)
    requires
        0 <= i < n,
        0 < e,
        0 < d,
    ensures
        e * (i + 1) <= n * e,
        d * i + d <= n * d,
        d * i == i * d,
        (i + 1) * d == i * d + d,
        e * i == i * e,
        e * (i + 1) == (i + 1) * e,
        e * (i + 1) == e * i + e,
        0 <= i * d,
{
    assert(e * (i + 1) <= n * e) by (nonlinear_arith)
        requires
            i + 1 <= n,
            0 < e,
    ;
    assert(d * i + d <= n * d) by (nonlinear_arith)
        requires
            i + 1 <= n,
            0 < d,
    ;
    assert(d * i == i * d && (i + 1) * d == i * d + d && e * i == i * e && e * (i + 1) == (i + 1)
        * e && 0 <= i * d && e * (i + 1) == e * i + e) by (nonlinear_arith)
        requires
            0 <= i,
            0 < d,
    ;
}

/// Encodes the whole blocks of `input` into the front of `output`.
fn encode_blocks<B: Base>(base: &B, input: &[u8], output: &mut [u8])
    requires
        base.inv(),
        (input@.len() / enc_spec(base.width())) * dec_spec(base.width()) <= old(output)@.len(),
    ensures
        final(output)@.len() == old(output)@.len(),
        forall|k: int|
            0 <= k < (input@.len() / enc_spec(base.width())) * dec_spec(base.width())
                ==> #[trigger] final(output)@[k] == symbol_at(base, input@, k),
{
    proof {
        base.lemma_inv();
        lemma_sizes(base.width());
        lemma_lengths(base.width(), input@.len());
    }
    let e: usize = enc(base);
    let d: usize = dec(base);
    let ilen: usize = input.len();
    let n: usize = ilen / e;
    let mut i: usize = 0;
    proof {
        vstd::slice::axiom_spec_len(&*output);
    }
    while i < n
        invariant
            base.inv(),
            i <= n,
            1 <= e <= 5,
            2 <= d <= 8,
            e == enc_spec(base.width()),
            d == dec_spec(base.width()),
            ilen == input@.len(),
            n == ilen / e,
            n * e <= ilen,
            n * d <= output@.len() <= usize::MAX,
            output@.len() == old(output)@.len(),
            forall|k: int| 0 <= k < i * d ==> #[trigger] output@[k] == symbol_at(base, input@, k),
        decreases n - i,
    {
        proof {
            lemma_block_bounds(i as int, n as int, e as int, d as int);
        }
        let block = chunk(input, e, i);
        let at: usize = d * i;
        let ghost before = output@;
        encode_block(base, block, output, at, d);
        proof {
            assert(block@ == block_of(input@, e as nat, i as int));
            assert forall|k: int| 0 <= k < (i + 1) * d implies #[trigger] output@[k] == symbol_at(
                base,
                input@,
                k,
            ) by {
                if k >= at {
                    lemma_fundamental_div_mod_converse(k, d as int, i as int, k - at);
                } else {
                    assert(output@[k] == before[k]);
                }
            }
        }
        i += 1;
    }
}

/// The products that place the last block.
proof fn lemma_rest(len: int, e: int, d: int)
    requires
        0 <= len,
        0 < e,
        0 < d,
    ensures
        e * (len / e) == (len / e) * e,
        d * (len / e) == (len / e) * d,
        0 <= (len / e) * e <= len,
        len - (len / e) * e == len % e,
        0 <= (len / e) * d,
{
    lemma_fundamental_div_mod(len, e);
    lemma_mod_bound(len, e);
    let n = len / e;
    assert(0 <= n) by (nonlinear_arith)
        requires
            n == len / e,
            0 <= len,
            0 < e,
    ;
    assert(e * n == n * e && d * n == n * d && 0 <= n * d) by (nonlinear_arith)
        requires
            0 <= n,
            0 < d,
    ;
}

/// The symbols of the last block are those of its own bytes.
proof fn lemma_rest_symbols<B: Base>(base: &B, input: Seq<u8>, rest: Seq<u8>)
    requires
        base.inv(),
        rest == input.subrange(
            ((input.len() / enc_spec(base.width())) * enc_spec(base.width())) as int,
            input.len() as int,
        ),
    ensures
        forall|k: int|
            (input.len() / enc_spec(base.width())) * dec_spec(base.width()) <= k
                < encode_nopad_len_spec(base.width(), input.len()) ==> #[trigger] symbol_at(
                base,
                input,
                k,
            ) == block_symbol(
                base,
                rest,
                k - (input.len() / enc_spec(base.width())) * dec_spec(base.width()),
            ),
{
    base.lemma_inv();
    lemma_sizes(base.width());
    lemma_lengths(base.width(), input.len());
    let e = enc_spec(base.width()) as int;
    let d = dec_spec(base.width()) as int;
    let n = input.len() as int / e;
    lemma_rest(input.len() as int, e, d);
    assert((n + 1) * e == n * e + e) by (nonlinear_arith);
    assert forall|k: int|
        n * d <= k < encode_nopad_len_spec(base.width(), input.len()) implies #[trigger] symbol_at(
        base,
        input,
        k,
    ) == block_symbol(base, rest, k - n * d) by {
        lemma_fundamental_div_mod_converse(k, d, n, k - n * d);
        assert(block_of(input, e as nat, n) == rest);
    }
}

/// Generic encoding function without allocation (with padding).
///
/// Encodes `input` into `output`, whose length must be the one that
/// [`encode_len`] gives for the length of `input`.
pub fn encode_mut<B: Base>(base: &B, input: &[u8], output: &mut [u8])
    requires
        base.inv(),
        old(output)@.len() == encode_len_spec(base.width(), input@.len()),
    ensures
        final(output)@ == encoded(base, input@),
        final(output)@.len() == encode_len_spec(base.width(), input@.len()),
{
    proof {
        base.lemma_inv();
        lemma_sizes(base.width());
        lemma_lengths(base.width(), input@.len());
    }
    let e: usize = enc(base);
    let d: usize = dec(base);
    let ilen: usize = input.len();
    let n: usize = ilen / e;
    encode_blocks(base, input, output);
    proof {
        lemma_rest(ilen as int, e as int, d as int);
        vstd::slice::axiom_spec_len(&*output);
    }
    let rest = slice_subrange(input, e * n, ilen);
    encode_last(base, rest, output, d * n);
    proof {
        lemma_rest_symbols(base, input@, rest@);
        assert(output@ =~= encoded(base, input@));
    }
}

/// Generic encoding function without allocation (without padding).
///
/// Encodes `input` into `output`, whose length must be the one that
/// [`encode_nopad_len`] gives for the length of `input`.
pub fn encode_nopad_mut<B: Base>(base: &B, input: &[u8], output: &mut [u8])
    requires
        base.inv(),
        old(output)@.len() == encode_nopad_len_spec(base.width(), input@.len()),
    ensures
        final(output)@ == encoded_nopad(base, input@),
        final(output)@.len() == encode_nopad_len_spec(base.width(), input@.len()),
{
    proof {
        base.lemma_inv();
        lemma_sizes(base.width());
        lemma_lengths(base.width(), input@.len());
    }
    let e: usize = enc(base);
    let d: usize = dec(base);
    let ilen: usize = input.len();
    let total: usize = output.len();
    let n: usize = ilen / e;
    encode_blocks(base, input, output);
    proof {
        lemma_rest(ilen as int, e as int, d as int);
    }
    let rest = slice_subrange(input, e * n, ilen);
    encode_block(base, rest, output, d * n, total - d * n);
    proof {
        lemma_rest_symbols(base, input@, rest@);
        assert(output@ =~= encoded_nopad(base, input@));
    }
}

/// ASCII bytes are valid UTF-8, and decode to themselves.
proof fn lemma_ascii_utf8(bytes: Seq<u8>)
    requires
        forall|i: int| 0 <= i < bytes.len() ==> bytes[i] < 128,
    ensures
        valid_utf8(bytes),
        decode_utf8(bytes) == ascii_text(bytes),
{
    let chars = ascii_text(bytes);
    assert(is_ascii_chars(chars));
    is_ascii_chars_encode_utf8(chars);
    assert(encode_utf8(chars) =~= bytes);
    encode_utf8_valid_utf8(chars);
    encode_utf8_decode_utf8(chars);
}

/// `String::from_utf8` of std: the string that the bytes spell in UTF-8,
/// or nothing where they are not valid UTF-8.
#[verifier::external_body]
fn string_from_utf8(bytes: Vec<u8>) -> (r: Option<String>)
    ensures
        r is Some <==> valid_utf8(bytes@),
        r matches Some(s) ==> s@ == decode_utf8(bytes@),
{
    match String::from_utf8(bytes) {
        Ok(s) => Some(s),
        Err(_) => None,
    }
}

/// Turns the bytes of an encoding into text.
fn into_text(bytes: Vec<u8>) -> (s: String)
    requires
        forall|i: int| 0 <= i < bytes@.len() ==> bytes@[i] < 128,
    ensures
        s@ == ascii_text(bytes@),
{
    proof {
        lemma_ascii_utf8(bytes@);
    }
    match string_from_utf8(bytes) {
        Some(s) => s,
        None => String::new(),
    }
}

/// Generic encoding function with allocation (with padding).
///
/// Allocates an output of the size that [`encode_len`] gives and fills it
/// with [`encode_mut`].
pub fn encode<B: Base>(base: &B, input: &[u8]) -> (s: String)
    requires
        base.inv(),
        encode_len_spec(base.width(), input@.len()) <= usize::MAX,
    ensures
        s@ == ascii_text(encoded(base, input@)),
        s@.len() == encode_len_spec(base.width(), input@.len()),
{
    let mut output: Vec<u8> = vec![0u8; encode_len(base, input.len())];
    encode_mut(base, input, output.as_mut_slice());
    proof {
        lemma_encoded_ascii(base, input@);
    }
    into_text(output)
}

/// Generic encoding function with allocation (without padding).
///
/// Allocates an output of the size that [`encode_nopad_len`] gives and
/// fills it with [`encode_nopad_mut`].
pub fn encode_nopad<B: Base>(base: &B, input: &[u8]) -> (s: String)
    requires
        base.inv(),
        8 * input@.len() <= usize::MAX,
    ensures
        s@ == ascii_text(encoded_nopad(base, input@)),
        s@.len() == encode_nopad_len_spec(base.width(), input@.len()),
{
    let mut output: Vec<u8> = vec![0u8; encode_nopad_len(base, input.len())];
    encode_nopad_mut(base, input, output.as_mut_slice());
    proof {
        lemma_encoded_ascii(base, input@);
    }
    into_text(output)
}

} // verus!
