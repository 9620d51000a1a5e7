//! The configuration of an encoding: symbol width, alphabet and padding.

use vstd::prelude::*;
use vstd::arithmetic::power2::pow2;

verus! {

/// A base-2^n alphabet.
///
/// An implementation describes itself through the four specification
/// functions and proves, in `lemma_inv`, that its invariant gives the
/// facts every encoder relies on: a width between one and six bits,
/// and ASCII symbols and padding.
pub trait Base {
    /// The invariant of the implementing type.
    spec fn inv(&self) -> bool;

    /// The number of bits that one symbol carries.
    spec fn width(&self) -> nat;

    /// The symbol that stands for the value `x`.
    spec fn symbol(&self, x: u8) -> u8;

    /// The padding character.
    spec fn padding(&self) -> u8;

    /// What the invariant guarantees.
    proof fn lemma_inv(&self)
        requires
            self.inv(),
        ensures
            1 <= self.width() <= 6,
            self.padding() < 128,
            forall|x: u8| x < pow2(self.width()) ==> #[trigger] self.symbol(x) < 128,
    ;

    /// Returns the padding character.
    fn pad(&self) -> (r: u8)
        requires
            self.inv(),
        ensures
            r == self.padding(),
    ;

    /// Returns the number of bits per symbol.
    fn bit(&self) -> (r: usize)
        requires
            self.inv(),
        ensures
            r == self.width(),
    ;

    /// Returns the symbol of a value below `2^bit`.
    fn sym(&self, x: u8) -> (r: u8)
        requires
            self.inv(),
            x < pow2(self.width()),
        ensures
            r == self.symbol(x),
    ;
}

/// Whether different values have different symbols.
pub open spec fn symbols_distinct<B: Base>(base: &B) -> bool {
    forall|x: u8, y: u8|
        x < pow2(base.width()) && y < pow2(base.width()) && #[trigger] base.symbol(x)
            == #[trigger] base.symbol(y) ==> x == y
}

/// Whether the padding character of `base` is none of its symbols.
pub open spec fn padding_is_no_symbol<B: Base>(base: &B) -> bool {
    forall|x: u8| x < pow2(base.width()) ==> #[trigger] base.symbol(x) != base.padding()
}

/// The number of bits in one block: the least common multiple of 8 and `bit`.
pub open spec fn len_spec(bit: nat) -> nat {
    if bit == 3 || bit == 6 {
        24
    } else if bit == 5 {
        40
    } else {
        8
    }
}

/// The number of input bytes in one block.
pub open spec fn enc_spec(bit: nat) -> nat {
    len_spec(bit) / 8
}

/// The number of output symbols in one block.
pub open spec fn dec_spec(bit: nat) -> nat
    recommends
        bit > 0,
{
    len_spec(bit) / bit
}

/// A block is a whole number of bytes and of symbols, at most eight of
/// them, and no shorter run of bytes is a whole number of symbols.
pub proof fn lemma_block_geometry(bit: nat)
    requires
        1 <= bit <= 6,
    ensures
        enc_spec(bit) * 8 == dec_spec(bit) * bit,
        1 <= enc_spec(bit) <= 5,
        1 <= dec_spec(bit) <= 8,
        forall|e: nat| 1 <= e < enc_spec(bit) ==> #[trigger] ((8 * e) % bit) != 0,
{
    let l = len_spec(bit);
    let d = dec_spec(bit);
    assert(d * bit == l && 1 <= d <= 8) by (nonlinear_arith)
        requires
            d == l / bit,
            (bit == 1 && l == 8) || (bit == 2 && l == 8) || (bit == 3 && l == 24) || (bit == 4
                && l == 8) || (bit == 5 && l == 40) || (bit == 6 && l == 24),
    ;
    assert forall|e: nat| 1 <= e < enc_spec(bit) implies #[trigger] ((8 * e) % bit) != 0 by {
        if bit == 3 {
            assert(e == 1 || e == 2);
        } else if bit == 5 {
            assert(e == 1 || e == 2 || e == 3 || e == 4);
        } else if bit == 6 {
            assert(e == 1 || e == 2);
        }
    }
}

/// Returns the number of bits in one block.
pub fn len<B: Base>(base: &B) -> (r: usize)
    requires
        base.inv(),
    ensures
        r == len_spec(base.width()),
{
    proof {
        base.lemma_inv();
    }
    let bit: usize = base.bit();
    if bit == 3 || bit == 6 {
        24
    } else if bit == 5 {
        40
    } else {
        8
    }
}

/// Returns the number of input bytes in one block.
pub fn enc<B: Base>(base: &B) -> (r: usize)
    requires
        base.inv(),
    ensures
        r == enc_spec(base.width()),
{
    len(base) / 8
}

/// Returns the number of output symbols in one block.
pub fn dec<B: Base>(base: &B) -> (r: usize)
    requires
        base.inv(),
    ensures
        r == dec_spec(base.width()),
{
    proof {
        base.lemma_inv();
    }
    len(base) / base.bit()
}

/// Returns the mask that keeps the low `bit` bits of a byte.
pub fn mask<B: Base>(base: &B) -> (r: u8)
    requires
        base.inv(),
    ensures
        r == pow2(base.width()) - 1,
{
    proof {
        base.lemma_inv();
        vstd::arithmetic::power2::lemma2_to64();
    }
    let bit: usize = base.bit();
    let one: u8 = 1;
    assert((one << bit) == pow2(bit as nat)) by {
        vstd::arithmetic::power2::lemma2_to64();
        assert(1u8 << 1usize == 2) by (bit_vector);
        assert(1u8 << 2usize == 4) by (bit_vector);
        assert(1u8 << 3usize == 8) by (bit_vector);
        assert(1u8 << 4usize == 16) by (bit_vector);
        assert(1u8 << 5usize == 32) by (bit_vector);
        assert(1u8 << 6usize == 64) by (bit_vector);
    }
    (one << bit) - 1
}

/// Whether `symbols` and `pad` describe an alphabet of `bit` bits per
/// symbol: one ASCII symbol for each value, no two of them the same, and
/// an ASCII padding character that is none of them.
pub open spec fn valid_table(bit: nat, symbols: Seq<u8>, pad: u8) -> bool {
    &&& 1 <= bit <= 6
    &&& symbols.len() == pow2(bit)
    &&& pad < 128
    &&& forall|i: int| 0 <= i < symbols.len() ==> symbols[i] < 128 && symbols[i] != pad
    &&& forall|i: int, j: int| 0 <= i < j < symbols.len() ==> symbols[i] != symbols[j]
}

/// A base given by the table of its symbols.
pub struct Alphabet {
    bit: usize,
    symbols: Vec<u8>,
    pad: u8,
}

impl Alphabet {
    /// Builds the base of `bit` bits per symbol whose value `x` is written
    /// `symbols[x]`, if the table is valid.
    pub fn new(bit: usize, symbols: Vec<u8>, pad: u8) -> (r: Option<Alphabet>)
        ensures
            r is Some <==> valid_table(bit as nat, symbols@, pad),
            r matches Some(a) ==> {
                &&& a.inv()
                &&& a.width() == bit
                &&& a.padding() == pad
                &&& forall|x: u8| x < symbols@.len() ==> a.symbol(x) == symbols@[x as int]
            },
    {
        if bit < 1 || bit > 6 || pad >= 128 {
            return None;
        }
        proof {
            vstd::arithmetic::power2::lemma2_to64();
        }
        let size: usize = if bit == 1 {
            2
        } else if bit == 2 {
            4
        } else if bit == 3 {
            8
        } else if bit == 4 {
            16
        } else if bit == 5 {
            32
        } else {
            64
        };
        if symbols.len() != size {
            return None;
        }
        let mut i: usize = 0;
        while i < size
            invariant
                i <= size,
                size == symbols@.len(),
                forall|j: int| 0 <= j < i ==> symbols@[j] < 128 && symbols@[j] != pad,
                forall|a: int, b: int| 0 <= a < b < i ==> symbols@[a] != symbols@[b],
            decreases size - i,
        {
            if symbols[i] >= 128 || symbols[i] == pad {
                return None;
            }
            let mut j: usize = 0;
            while j < i
                invariant
                    j <= i < size,
                    size == symbols@.len(),
                    forall|a: int| 0 <= a < j ==> symbols@[a] != symbols@[i as int],
                decreases i - j,
            {
                if symbols[j] == symbols[i] {
                    return None;
                }
                j += 1;
            }
            i += 1;
        }
        Some(Alphabet { bit, symbols, pad })
    }

    /// The symbols of a table are distinct, and none is its padding
    /// character.
    pub proof fn lemma_table(&self)
        requires
            self.inv(),
        ensures
            symbols_distinct(self),
            padding_is_no_symbol(self),
    {
    }
}

impl Base for Alphabet {
    closed spec fn inv(&self) -> bool {
        valid_table(self.bit as nat, self.symbols@, self.pad)
    }

    closed spec fn width(&self) -> nat {
        self.bit as nat
    }

    closed spec fn symbol(&self, x: u8) -> u8 {
        if x < self.symbols@.len() {
            self.symbols@[x as int]
        } else {
            0
        }
    }

    closed spec fn padding(&self) -> u8 {
        self.pad
    }

    proof fn lemma_inv(&self) {
    }

    fn pad(&self) -> (r: u8) {
        self.pad
    }

    fn bit(&self) -> (r: usize) {
        self.bit
    }

    fn sym(&self, x: u8) -> (r: u8) {
        self.symbols[x as usize]
    }
}

} // verus!
