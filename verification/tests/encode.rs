use base_encoding::base::{dec, enc, len, mask, Alphabet, Base};
use base_encoding::encode::{
    encode, encode_len, encode_mut, encode_nopad, encode_nopad_len, encode_nopad_mut,
};
use base_encoding::tool::{chunk, div_ceil};

fn alphabet(bit: usize, symbols: &str) -> Alphabet {
    Alphabet::new(bit, symbols.as_bytes().to_vec(), b'=').unwrap()
}

fn base2() -> Alphabet {
    alphabet(1, "01")
}

fn base4() -> Alphabet {
    alphabet(2, "0123")
}

fn base8() -> Alphabet {
    alphabet(3, "01234567")
}

fn base16() -> Alphabet {
    alphabet(4, "0123456789ABCDEF")
}

fn base32() -> Alphabet {
    alphabet(5, "ABCDEFGHIJKLMNOPQRSTUVWXYZ234567")
}

fn base64() -> Alphabet {
    alphabet(6, "ABCDEFGHIJKLMNOPQRSTUVWXYZabcdefghijklmnopqrstuvwxyz0123456789+/")
}

fn all_bases() -> Vec<Alphabet> {
    vec![base2(), base4(), base8(), base16(), base32(), base64()]
}

#[test]
fn div_ceil_rounds_up() {
    assert_eq!(div_ceil(0, 5), 0);
    assert_eq!(div_ceil(1, 5), 1);
    assert_eq!(div_ceil(5, 5), 1);
    assert_eq!(div_ceil(6, 5), 2);
    assert_eq!(div_ceil(40, 6), 7);
    assert_eq!(div_ceil(usize::MAX, 1), usize::MAX);
    assert_eq!(div_ceil(usize::MAX, 2), usize::MAX / 2 + 1);
}

#[test]
fn chunk_takes_the_nth_run() {
    let data = [1u8, 2, 3, 4, 5, 6, 7];
    assert_eq!(chunk(&data, 3, 0), &[1, 2, 3]);
    assert_eq!(chunk(&data, 3, 1), &[4, 5, 6]);
    assert_eq!(chunk(&data, 7, 0), &data);
    assert_eq!(chunk(&data, 0, 9), &[] as &[u8]);
}

#[test]
fn alphabet_accepts_exactly_valid_tables() {
    assert!(Alphabet::new(1, b"01".to_vec(), b'=').is_some());
    assert!(Alphabet::new(0, b"0".to_vec(), b'=').is_none());
    assert!(Alphabet::new(7, vec![b'a'; 128], b'=').is_none());
    assert!(Alphabet::new(2, b"012".to_vec(), b'=').is_none());
    assert!(Alphabet::new(2, b"01234".to_vec(), b'=').is_none());
    assert!(Alphabet::new(2, vec![b'0', b'1', 0x80, b'3'], b'=').is_none());
    assert!(Alphabet::new(2, b"0123".to_vec(), 0x80).is_none());
    assert!(Alphabet::new(2, b"01=3".to_vec(), b'=').is_none());
    assert!(Alphabet::new(2, b"0120".to_vec(), b'=').is_none());
    assert!(Alphabet::new(2, b"0113".to_vec(), b'=').is_none());
    assert!(Alphabet::new(6, (0..64u8).map(|i| i + 32).collect(), 127).is_some());
}

#[test]
fn alphabet_reports_its_table() {
    let base = base32();
    assert_eq!(base.bit(), 5);
    assert_eq!(base.pad(), b'=');
    assert_eq!(base.sym(0), b'A');
    assert_eq!(base.sym(25), b'Z');
    assert_eq!(base.sym(26), b'2');
    assert_eq!(base.sym(31), b'7');
}

#[test]
fn block_geometry_of_each_width() {
    let expected =
        [(8, 1, 8, 1), (8, 1, 4, 3), (24, 3, 8, 7), (8, 1, 2, 15), (40, 5, 8, 31), (24, 3, 4, 63)];
    for (base, want) in all_bases().iter().zip(expected.iter()) {
        assert_eq!(len(base), want.0);
        assert_eq!(enc(base), want.1);
        assert_eq!(dec(base), want.2);
        assert_eq!(mask(base), want.3);
        assert_eq!(enc(base) * 8, dec(base) * base.bit());
    }
}

#[test]
fn padded_lengths() {
    let b32 = base32();
    assert_eq!(encode_len(&b32, 0), 0);
    assert_eq!(encode_len(&b32, 1), 8);
    assert_eq!(encode_len(&b32, 5), 8);
    assert_eq!(encode_len(&b32, 6), 16);
    let b64 = base64();
    assert_eq!(encode_len(&b64, 0), 0);
    assert_eq!(encode_len(&b64, 1), 4);
    assert_eq!(encode_len(&b64, 3), 4);
    assert_eq!(encode_len(&b64, 4), 8);
    assert_eq!(encode_len(&base16(), 7), 14);
    assert_eq!(encode_len(&base2(), 3), 24);
}

#[test]
fn unpadded_lengths() {
    let b32 = base32();
    assert_eq!(encode_nopad_len(&b32, 0), 0);
    assert_eq!(encode_nopad_len(&b32, 1), 2);
    assert_eq!(encode_nopad_len(&b32, 2), 4);
    assert_eq!(encode_nopad_len(&b32, 3), 5);
    assert_eq!(encode_nopad_len(&b32, 4), 7);
    assert_eq!(encode_nopad_len(&b32, 5), 8);
    let b64 = base64();
    assert_eq!(encode_nopad_len(&b64, 1), 2);
    assert_eq!(encode_nopad_len(&b64, 2), 3);
    assert_eq!(encode_nopad_len(&b64, 3), 4);
    assert_eq!(encode_nopad_len(&base8(), 1), 3);
    assert_eq!(encode_nopad_len(&base8(), 2), 6);
}

#[test]
fn lengths_stay_within_eight_per_byte() {
    for base in all_bases().iter() {
        for n in 0..64 {
            assert!(encode_nopad_len(base, n) <= encode_len(base, n));
            assert!(encode_len(base, n) <= 8 * n);
            assert_eq!(encode_len(base, n) % dec(base), 0);
            assert!(encode_len(base, n) - encode_nopad_len(base, n) < dec(base));
        }
    }
}

#[test]
fn length_functions_repeat_their_answers() {
    for base in all_bases().iter() {
        for n in 0..50 {
            assert_eq!(encode_len(base, n), encode_len(base, n));
            assert_eq!(encode_nopad_len(base, n), encode_nopad_len(base, n));
        }
    }
}

#[test]
fn base64_known_answers() {
    let b = base64();
    assert_eq!(encode(&b, b""), "");
    assert_eq!(encode(&b, b"f"), "Zg==");
    assert_eq!(encode(&b, b"fo"), "Zm8=");
    assert_eq!(encode(&b, b"foo"), "Zm9v");
    assert_eq!(encode(&b, b"foob"), "Zm9vYg==");
    assert_eq!(encode(&b, b"fooba"), "Zm9vYmE=");
    assert_eq!(encode(&b, b"foobar"), "Zm9vYmFy");
    assert_eq!(encode(&b, &[0xfb, 0xff, 0xbe]), "+/++");
}

#[test]
fn base64_known_answers_without_padding() {
    let b = base64();
    assert_eq!(encode_nopad(&b, b""), "");
    assert_eq!(encode_nopad(&b, b"f"), "Zg");
    assert_eq!(encode_nopad(&b, b"fo"), "Zm8");
    assert_eq!(encode_nopad(&b, b"foo"), "Zm9v");
    assert_eq!(encode_nopad(&b, b"foob"), "Zm9vYg");
    assert_eq!(encode_nopad(&b, b"fooba"), "Zm9vYmE");
    assert_eq!(encode_nopad(&b, b"foobar"), "Zm9vYmFy");
}

#[test]
fn base32_known_answers() {
    let b = base32();
    assert_eq!(encode(&b, b""), "");
    assert_eq!(encode(&b, b"f"), "MY======");
    assert_eq!(encode(&b, b"fo"), "MZXQ====");
    assert_eq!(encode(&b, b"foo"), "MZXW6===");
    assert_eq!(encode(&b, b"foob"), "MZXW6YQ=");
    assert_eq!(encode(&b, b"fooba"), "MZXW6YTB");
    assert_eq!(encode(&b, b"foobar"), "MZXW6YTBOI======");
    assert_eq!(encode_nopad(&b, b"foobar"), "MZXW6YTBOI");
    assert_eq!(encode_nopad(&b, b"foob"), "MZXW6YQ");
}

#[test]
fn base32_boundary_block() {
    let b = base32();
    assert_eq!(encode(&b, &[0xff, 0xff, 0xff, 0xff, 0xff]), "77777777");
    let one = encode(&b, &[0xff]);
    assert_eq!(one, "74======");
    assert_eq!(one.bytes().filter(|&c| c == b'=').count(), 6);
    assert_eq!(encode_nopad(&b, &[0xff]), "74");
    assert_eq!(encode_nopad_len(&b, 1), 2);
    assert_eq!(encode_len(&b, 1), 8);
}

#[test]
fn base16_known_answers() {
    let b = base16();
    assert_eq!(encode(&b, b"foobar"), "666F6F626172");
    assert_eq!(encode_nopad(&b, b"foobar"), "666F6F626172");
    assert_eq!(encode(&b, &[0x00, 0xff, 0x1a]), "00FF1A");
}

#[test]
fn narrow_widths_known_answers() {
    assert_eq!(encode(&base2(), &[0xa5]), "10100101");
    assert_eq!(encode(&base2(), &[0x00, 0x81]), "0000000010000001");
    assert_eq!(encode(&base4(), &[0x1b]), "0123");
    assert_eq!(encode(&base8(), &[0xff]), "776=====");
    assert_eq!(encode_nopad(&base8(), &[0xff]), "776");
    assert_eq!(encode(&base8(), &[0xff, 0xff]), "777774==");
    assert_eq!(encode(&base8(), &[0x05, 0x39, 0x77]), "01234567");
}

#[test]
fn empty_input_gives_empty_text() {
    for base in all_bases().iter() {
        assert_eq!(encode(base, &[]), "");
        assert_eq!(encode_nopad(base, &[]), "");
        assert_eq!(encode_len(base, 0), 0);
        assert_eq!(encode_nopad_len(base, 0), 0);
        let mut nothing: [u8; 0] = [];
        encode_mut(base, &[], &mut nothing);
        encode_nopad_mut(base, &[], &mut nothing);
    }
}

#[test]
fn encode_mut_fills_the_whole_buffer() {
    let b = base64();
    let mut out = [b'#'; 8];
    encode_mut(&b, b"foob", &mut out);
    assert_eq!(&out, b"Zm9vYg==");
    let mut out = [b'#'; 6];
    encode_nopad_mut(&b, b"foob", &mut out);
    assert_eq!(&out, b"Zm9vYg");
}

#[test]
fn output_lengths_match_the_length_functions() {
    let data: Vec<u8> = (0..40u8).map(|i| i.wrapping_mul(37).wrapping_add(11)).collect();
    for base in all_bases().iter() {
        for n in 0..data.len() {
            assert_eq!(encode(base, &data[..n]).len(), encode_len(base, n));
            assert_eq!(encode_nopad(base, &data[..n]).len(), encode_nopad_len(base, n));
        }
    }
}

#[test]
fn padding_stands_only_after_the_symbols() {
    let data: Vec<u8> = (0..23u8).map(|i| i.wrapping_mul(91).wrapping_add(5)).collect();
    for base in all_bases().iter() {
        for n in 0..data.len() {
            let padded = encode(base, &data[..n]);
            let bare = encode_nopad(base, &data[..n]);
            let cut = encode_nopad_len(base, n);
            assert_eq!(&padded[..cut], bare);
            assert!(padded.as_bytes()[cut..].iter().all(|&c| c == b'='));
            assert!(padded.as_bytes()[..cut].iter().all(|&c| c != b'='));
        }
    }
}

fn decode_with(base: &Alphabet, text: &str) -> Vec<u8> {
    let bit = base.bit();
    let mut bits: Vec<bool> = Vec::new();
    for &c in text.as_bytes() {
        if c == base.pad() {
            break;
        }
        let value = (0..(1u8 << bit)).find(|&v| base.sym(v) == c).unwrap();
        for t in (0..bit).rev() {
            bits.push((value >> t) & 1 == 1);
        }
    }
    let mut bytes = Vec::new();
    for group in bits.chunks(8) {
        if group.len() == 8 {
            bytes.push(group.iter().fold(0u8, |acc, &b| (acc << 1) | (b as u8)));
        } else {
            assert!(group.iter().all(|&b| !b));
        }
    }
    bytes
}

#[test]
fn decoding_gives_the_input_back() {
    let data: Vec<u8> = (0..32u8).map(|i| i.wrapping_mul(73).wrapping_add(200)).collect();
    for base in all_bases().iter() {
        for n in 0..data.len() {
            assert_eq!(decode_with(base, &encode(base, &data[..n])), &data[..n]);
            assert_eq!(decode_with(base, &encode_nopad(base, &data[..n])), &data[..n]);
        }
    }
}

#[test]
fn symbol_bits_follow_input_bits() {
    let data: Vec<u8> = (0..17u8).map(|i| i.wrapping_mul(151).wrapping_add(77)).collect();
    for base in all_bases().iter() {
        let bit = base.bit();
        for n in 0..data.len() {
            let input = &data[..n];
            let text = encode_nopad(base, input);
            for (k, &c) in text.as_bytes().iter().enumerate() {
                let value = (0..(1u8 << bit)).find(|&v| base.sym(v) == c).unwrap();
                for t in 0..bit {
                    let i = k * bit + t;
                    let expected = if i < 8 * n { (input[i / 8] >> (7 - i % 8)) & 1 } else { 0 };
                    assert_eq!((value >> (bit - 1 - t)) & 1, expected);
                }
            }
        }
    }
}

#[test]
fn text_is_ascii() {
    let data: Vec<u8> = (0..=255u8).collect();
    for base in all_bases().iter() {
        assert!(encode(base, &data).is_ascii());
        assert!(encode_nopad(base, &data).is_ascii());
    }
}
