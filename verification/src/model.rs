//! What an encoding is: the lengths, the symbols and the padding of the
//! text that stands for a sequence of bytes, and what holds of them.

use vstd::prelude::*;
use vstd::arithmetic::power2::{pow2, lemma2_to64, lemma_pow2_pos};
use vstd::arithmetic::div_mod::{lemma_fundamental_div_mod_converse, lemma_mod_bound};
use crate::base::{Base, enc_spec, dec_spec, len_spec, padding_is_no_symbol};
use crate::tool::{div_ceil_spec, lemma_div_ceil};

verus! {

/// The bytes of `chunk` read as one big-endian number of `enc` bytes, the
/// missing bytes at the end taken as zero.
pub open spec fn pack(chunk: Seq<u8>, enc: nat) -> nat
    recommends
        chunk.len() <= enc,
    decreases chunk.len(),
{
    if chunk.len() == 0 {
        0
    } else {
        pack(chunk.drop_last(), enc) + chunk.last() as nat * pow2((8 * (enc - chunk.len())) as nat)
    }
}

/// The `k`-th group of `bit` bits, counted from the most significant end,
/// of a number of `dec` such groups.
pub open spec fn group(x: nat, bit: nat, dec: nat, k: nat) -> nat
    recommends
        k < dec,
{
    (x / pow2((bit * (dec - 1 - k)) as nat)) % pow2(bit)
}

/// The bytes of the `i`-th block of `input`; the last block may be short
/// or empty.
pub open spec fn block_of(input: Seq<u8>, enc: nat, i: int) -> Seq<u8> {
    if (i + 1) * enc <= input.len() {
        input.subrange(i * enc, (i + 1) * enc)
    } else {
        input.subrange(i * enc, input.len() as int)
    }
}

/// The `k`-th symbol of the block that starts with the bytes of `chunk`.
pub open spec fn block_symbol<B: Base>(base: &B, chunk: Seq<u8>, k: int) -> u8 {
    base.symbol(
        group(
            pack(chunk, enc_spec(base.width())),
            base.width(),
            dec_spec(base.width()),
            k as nat,
        ) as u8,
    )
}

/// The `k`-th symbol of the encoding of `input`.
pub open spec fn symbol_at<B: Base>(base: &B, input: Seq<u8>, k: int) -> u8 {
    let d = dec_spec(base.width()) as int;
    block_symbol(base, block_of(input, enc_spec(base.width()), k / d), k % d)
}

/// The length of the padded encoding of `len` bytes.
pub open spec fn encode_len_spec(bit: nat, len: nat) -> nat {
    div_ceil_spec(len, enc_spec(bit)) * dec_spec(bit)
}

/// The length of the unpadded encoding of `len` bytes.
pub open spec fn encode_nopad_len_spec(bit: nat, len: nat) -> nat {
    div_ceil_spec(8 * len, bit)
}

/// The padded encoding of `input`: its symbols, then padding up to a
/// whole number of blocks.
pub open spec fn encoded<B: Base>(base: &B, input: Seq<u8>) -> Seq<u8> {
    Seq::new(
        encode_len_spec(base.width(), input.len()),
        |k: int|
            if k < encode_nopad_len_spec(base.width(), input.len()) {
                symbol_at(base, input, k)
            } else {
                base.padding()
            },
    )
}

/// The unpadded encoding of `input`.
pub open spec fn encoded_nopad<B: Base>(base: &B, input: Seq<u8>) -> Seq<u8> {
    Seq::new(
        encode_nopad_len_spec(base.width(), input.len()),
        |k: int| symbol_at(base, input, k),
    )
}

/// The text whose characters are the ASCII bytes of `bytes`.
pub open spec fn ascii_text(bytes: Seq<u8>) -> Seq<char> {
    Seq::new(bytes.len(), |i: int| bytes[i] as char)
}

/// The sizes of a block for each width.
pub proof fn lemma_sizes(bit: nat)
    requires
        1 <= bit <= 6,
    ensures
        bit == 1 ==> enc_spec(bit) == 1 && dec_spec(bit) == 8,
        bit == 2 ==> enc_spec(bit) == 1 && dec_spec(bit) == 4,
        bit == 3 ==> enc_spec(bit) == 3 && dec_spec(bit) == 8,
        bit == 4 ==> enc_spec(bit) == 1 && dec_spec(bit) == 2,
        bit == 5 ==> enc_spec(bit) == 5 && dec_spec(bit) == 8,
        bit == 6 ==> enc_spec(bit) == 3 && dec_spec(bit) == 4,
{
    let l = len_spec(bit);
    let d = dec_spec(bit);
    assert(d * bit == l) by (nonlinear_arith)
        requires
            d == l / bit,
            (bit == 1 && l == 8) || (bit == 2 && l == 8) || (bit == 3 && l == 24) || (bit == 4
                && l == 8) || (bit == 5 && l == 40) || (bit == 6 && l == 24),
    ;
    if bit == 1 {
        assert(d * 1 == 8);
    } else if bit == 2 {
        assert(d * 2 == 8);
    }
}

/// How the two lengths of `len` bytes split into whole blocks and a rest.
pub proof fn lemma_lengths(bit: nat, len: nat)
    requires
        1 <= bit <= 6,
    ensures
        ({
            let e = enc_spec(bit);
            let d = dec_spec(bit);
            let n = len / e;
            let rest = len % e;
            &&& len == n * e + rest
            &&& encode_nopad_len_spec(bit, len) == n * d + encode_nopad_len_spec(bit, rest)
            &&& encode_len_spec(bit, len) == if rest == 0 { n * d } else { (n + 1) * d }
            &&& encode_nopad_len_spec(bit, rest) < d
            &&& (rest == 0 <==> encode_nopad_len_spec(bit, rest) == 0)
            &&& encode_nopad_len_spec(bit, len) <= encode_len_spec(bit, len)
        }),
{
    lemma_sizes(bit);
    let e = enc_spec(bit);
    let d = dec_spec(bit);
    let n = len / e;
    let rest = len % e;
    lemma_div_ceil(len, e);
    if bit == 1 {
        assert(n * d == 8 * n);
    } else if bit == 2 {
        assert(n * d == 4 * n);
    } else if bit == 3 {
        assert(n * d == 8 * n);
    } else if bit == 4 {
        assert(n * d == 2 * n);
    } else if bit == 5 {
        assert(n * d == 8 * n);
    } else {
        assert(n * d == 4 * n);
    }
}

/// Neither length exceeds eight times the number of bytes, so both fit
/// wherever that does.
pub proof fn lemma_length_bounds(bit: nat, len: nat)
    requires
        1 <= bit <= 6,
    ensures
        encode_nopad_len_spec(bit, len) <= encode_len_spec(bit, len) <= 8 * len,
{
    lemma_sizes(bit);
    lemma_lengths(bit, len);
    let n = len / enc_spec(bit);
    let d = dec_spec(bit);
    assert((n + 1) * d == n * d + d) by (nonlinear_arith);
    if bit == 1 {
        assert(n * d == 8 * n);
    } else if bit == 2 {
        assert(n * d == 4 * n);
    } else if bit == 3 {
        assert(n * d == 8 * n);
    } else if bit == 4 {
        assert(n * d == 2 * n);
    } else if bit == 5 {
        assert(n * d == 8 * n);
    } else {
        assert(n * d == 4 * n);
    }
}

/// The value that a symbol stands for is below `2^bit`.
pub proof fn lemma_symbol_index<B: Base>(base: &B, chunk: Seq<u8>, k: int)
    requires
        base.inv(),
    ensures
        group(pack(chunk, enc_spec(base.width())), base.width(), dec_spec(base.width()), k as nat)
            < pow2(base.width()) <= 64,
        block_symbol(base, chunk, k) < 128,
{
    base.lemma_inv();
    lemma2_to64();
    lemma_pow2_pos(base.width());
    let x = pack(chunk, enc_spec(base.width()));
    let t = (base.width() * (dec_spec(base.width()) - 1 - k as nat)) as nat;
    lemma_pow2_pos(t);
    lemma_mod_bound((x / pow2(t)) as int, pow2(base.width()) as int);
}

/// Every byte of an encoding, padded or not, is ASCII.
pub proof fn lemma_encoded_ascii<B: Base>(base: &B, input: Seq<u8>)
    requires
        base.inv(),
    ensures
        forall|k: int| 0 <= k < encoded(base, input).len() ==> encoded(base, input)[k] < 128,
        forall|k: int|
            0 <= k < encoded_nopad(base, input).len() ==> encoded_nopad(base, input)[k] < 128,
{
    base.lemma_inv();
    assert forall|k: int| #[trigger] symbol_at(base, input, k) < 128 by {
        let d = dec_spec(base.width()) as int;
        lemma_symbol_index(base, block_of(input, enc_spec(base.width()), k / d), k % d);
    }
}

/// In a padded encoding the padding stands exactly at the positions from
/// the unpadded length on: every byte there is the padding character, the
/// bytes before are those of the unpadded encoding and, where the padding
/// character is no symbol, none of them is the padding character.
pub proof fn lemma_padding_placement<B: Base>(base: &B, input: Seq<u8>)
    requires
        base.inv(),
    ensures
        encoded_nopad(base, input).len() <= encoded(base, input).len(),
        encoded(base, input).len() - encoded_nopad(base, input).len() < dec_spec(base.width()),
        encoded(base, input).len() % dec_spec(base.width()) == 0,
        forall|k: int|
            encoded_nopad(base, input).len() <= k < encoded(base, input).len() ==> encoded(
                base,
                input,
            )[k] == base.padding(),
        encoded(base, input).subrange(0, encoded_nopad(base, input).len() as int)
            == encoded_nopad(base, input),
        padding_is_no_symbol(base) ==> forall|k: int|
            0 <= k < encoded_nopad(base, input).len() ==> encoded(base, input)[k] != base.padding(),
{
    base.lemma_inv();
    let bit = base.width();
    let d = dec_spec(bit);
    lemma_sizes(bit);
    lemma_lengths(bit, input.len());
    let n = input.len() / enc_spec(bit);
    assert((n + 1) * d == n * d + d) by (nonlinear_arith);
    assert((n * d) % d == 0 && ((n + 1) * d) % d == 0) by {
        lemma_fundamental_div_mod_converse((n * d) as int, d as int, n as int, 0);
        lemma_fundamental_div_mod_converse(((n + 1) * d) as int, d as int, (n + 1) as int, 0);
    }
    assert(encoded(base, input).subrange(0, encoded_nopad(base, input).len() as int)
        =~= encoded_nopad(base, input));
    if padding_is_no_symbol(base) {
        assert forall|k: int| 0 <= k < encoded_nopad(base, input).len() implies encoded(
            base,
            input,
        )[k] != base.padding() by {
            lemma_symbol_index(
                base,
                block_of(input, enc_spec(bit), k / (d as int)),
                k % (d as int),
            );
        }
    }
}

/// The encoding of no bytes is empty, padded or not.
pub proof fn lemma_encode_empty<B: Base>(base: &B)
    requires
        base.inv(),
    ensures
        encoded(base, Seq::<u8>::empty()) == Seq::<u8>::empty(),
        encoded_nopad(base, Seq::<u8>::empty()) == Seq::<u8>::empty(),
        ascii_text(Seq::<u8>::empty()) == Seq::<char>::empty(),
{
    base.lemma_inv();
    lemma_sizes(base.width());
    lemma_lengths(base.width(), 0);
    assert(encoded(base, Seq::<u8>::empty()) =~= Seq::<u8>::empty());
    assert(encoded_nopad(base, Seq::<u8>::empty()) =~= Seq::<u8>::empty());
    assert(ascii_text(Seq::<u8>::empty()) =~= Seq::<char>::empty());
}

} // verus!
