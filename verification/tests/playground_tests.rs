use std::io::Read;

use fink_site::playground::{base62_encode, encode_source};

const DIGITS: &str = "0123456789abcdefghijklmnopqrstuvwxyzABCDEFGHIJKLMNOPQRSTUVWXYZ";

/// Reads base-62 text back into bytes: one zero byte per leading `0`, then
/// the big-endian bytes of the number (`0` alone is no bytes).
fn decode(text: &str) -> Vec<u8> {
    if text == "0" {
        return vec![];
    }
    let zeros = text.chars().take_while(|&c| c == '0').count();
    let rest = &text[zeros..];
    let mut num: Vec<u8> = vec![]; // big-endian
    for c in rest.chars() {
        let d = DIGITS.find(c).unwrap() as u32;
        let mut carry = d;
        for b in num.iter_mut().rev() {
            let v = (*b as u32) * 62 + carry;
            *b = (v & 0xff) as u8;
            carry = v >> 8;
        }
        while carry > 0 {
            num.insert(0, (carry & 0xff) as u8);
            carry >>= 8;
        }
    }
    if rest.is_empty() {
        // All zero bytes: one `0` per byte, then the single digit of zero.
        return vec![0; zeros - 1];
    }
    let mut out = vec![0u8; zeros];
    out.extend(num);
    out
}

fn inflate(data: &[u8]) -> Vec<u8> {
    let mut d = flate2::read::DeflateDecoder::new(data);
    let mut out = Vec::new();
    d.read_to_end(&mut out).unwrap();
    out
}

#[test]
fn base62_of_small_numbers() {
    assert_eq!(base62_encode(&[]), "0");
    assert_eq!(base62_encode(&[1]), "1");
    assert_eq!(base62_encode(&[10]), "a");
    assert_eq!(base62_encode(&[36]), "A");
    assert_eq!(base62_encode(&[61]), "Z");
    assert_eq!(base62_encode(&[62]), "10");
    assert_eq!(base62_encode(&[1, 0]), "48");
    assert_eq!(base62_encode(&[255, 255]), "h31");
}

#[test]
fn base62_keeps_leading_zero_bytes() {
    assert_eq!(base62_encode(&[0]), "00");
    assert_eq!(base62_encode(&[0, 0]), "000");
    assert_eq!(base62_encode(&[0, 0, 1]), "001");
    assert_eq!(base62_encode(&[0, 255]), "047");
}

#[test]
fn base62_of_long_input() {
    // 2^64 = 0x01_00000000_00000000 needs more than one limb.
    let bytes = [1u8, 0, 0, 0, 0, 0, 0, 0, 0];
    assert_eq!(base62_encode(&bytes), "lYGhA16ahyg");
    let big: Vec<u8> = (0..40u8).map(|i| i.wrapping_mul(37).wrapping_add(11)).collect();
    assert_eq!(decode(&base62_encode(&big)), big);
}

#[test]
fn different_bytes_give_different_text() {
    let inputs: Vec<Vec<u8>> = vec![vec![], vec![0], vec![0, 0], vec![1], vec![0, 1], vec![1, 0], vec![62], vec![0, 62]];
    let texts: Vec<String> = inputs.iter().map(|b| base62_encode(b)).collect();
    for i in 0..texts.len() {
        for j in 0..texts.len() {
            if i != j {
                assert_ne!(texts[i], texts[j], "{:?} and {:?}", inputs[i], inputs[j]);
            }
        }
        assert_eq!(decode(&texts[i]), inputs[i]);
    }
}

#[test]
fn encode_source_round_trips_through_inflate() {
    for src in ["", "x = 1", "fn add a, b:\n  a + b\n", "ünïcödé ✓"] {
        let text = encode_source(src);
        assert!(text.chars().all(|c| DIGITS.contains(c)));
        let compressed = decode(&text);
        assert_eq!(inflate(&compressed), src.as_bytes());
    }
}

#[test]
fn encode_source_compresses() {
    let src = "a".repeat(1000);
    let text = encode_source(&src);
    assert!(text.len() < 40);
    assert_ne!(text, base62_encode(src.as_bytes()));
}
