use audio_stego::codec::{assemble_bytes, decode, encode, CodecError, MAX_DECODED_BYTES};
use audio_stego::text::payload_text_of;

fn noise(n: usize) -> Vec<i16> {
    let mut x: u32 = 12345;
    let mut v = Vec::with_capacity(n);
    for _ in 0..n {
        x = x.wrapping_mul(1103515245).wrapping_add(12345);
        v.push((x >> 8) as u16 as i16);
    }
    v
}

#[test]
fn empty_message_leaves_samples_unchanged() {
    let s = noise(64);
    for b in 1..=8u8 {
        assert_eq!(encode(s.clone(), &[], b, false), Ok(s.clone()));
    }
}

#[test]
fn empty_message_with_repeat_leaves_samples_unchanged() {
    let s = noise(16);
    assert_eq!(encode(s.clone(), &[], 3, true), Ok(s));
}

#[test]
fn empty_buffer_stays_empty() {
    assert_eq!(encode(Vec::new(), b"abc", 4, false), Ok(Vec::new()));
    assert_eq!(encode(Vec::new(), b"abc", 4, true), Ok(Vec::new()));
    assert_eq!(decode(&[], 4, false), Ok(String::new()));
}

#[test]
fn invalid_width_is_rejected() {
    let s = noise(16);
    assert_eq!(encode(s.clone(), b"x", 0, false), Err(CodecError::InvalidBitWidth));
    assert_eq!(encode(s.clone(), b"x", 9, false), Err(CodecError::InvalidBitWidth));
    assert_eq!(decode(&s, 0, false), Err(CodecError::InvalidBitWidth));
    assert_eq!(decode(&s, 9, true), Err(CodecError::InvalidBitWidth));
}

#[test]
fn encode_one_bit_per_sample() {
    let s = vec![0i16; 8];
    assert_eq!(encode(s, &[0b1011_0001], 1, false), Ok(vec![1, 0, 0, 0, 1, 1, 0, 1]));
}

#[test]
fn encode_keeps_high_bits() {
    let s = vec![-1i16, -1, 0x7f00];
    assert_eq!(encode(s, &[0x5a], 4, false), Ok(vec![-6, -11, 0x7f00]));
}

#[test]
fn encode_stops_inside_a_sample() {
    let s = vec![0b111i16, 0b111, 0b111, 0b111];
    // The eight message bits fill samples 0 and 1 and bits 0 and 1 of sample 2.
    assert_eq!(encode(s, &[0b1100_0000], 3, false), Ok(vec![0b000, 0b000, 0b111, 0b111]));
}

#[test]
fn encode_repeat_fills_all_samples() {
    let s = vec![0i16; 20];
    let out = encode(s, &[0b01], 1, true).unwrap();
    let expected: Vec<i16> = (0..20).map(|i| if i % 8 == 0 { 1 } else { 0 }).collect();
    assert_eq!(out, expected);
}

#[test]
fn round_trip_each_width() {
    for b in 1..=8u8 {
        let msg = "hello, wörld";
        let n = msg.len() * 8 / b as usize + 50;
        let s = noise(n);
        let enc = encode(s, msg.as_bytes(), b, false).unwrap();
        let dec = decode(&enc, b, false).unwrap();
        assert!(dec.starts_with(msg), "width {}: {:?}", b, dec);
    }
}

#[test]
fn round_trip_exact_fit() {
    let msg = "secret";
    for b in [1u8, 2, 4, 8] {
        let n = msg.len() * 8 / b as usize;
        let enc = encode(noise(n), msg.as_bytes(), b, false).unwrap();
        assert_eq!(decode(&enc, b, false), Ok(msg.to_string()));
    }
}

#[test]
fn round_trip_into_silence_appends_nul_characters() {
    let enc = encode(vec![0i16; 24 + 16], b"abc", 1, false).unwrap();
    assert_eq!(decode(&enc, 1, false), Ok("abc\0\0".to_string()));
}

#[test]
fn round_trip_invalid_message_gives_valid_prefix() {
    let msg = [b'o', b'k', 0xff, b'z'];
    let enc = encode(noise(32), &msg, 1, false).unwrap();
    assert_eq!(decode(&enc, 1, false), Ok("ok".to_string()));
}

#[test]
fn repeat_round_trip_gives_one_copy() {
    let msg = "hello";
    let enc = encode(noise(4000), msg.as_bytes(), 1, true).unwrap();
    assert_eq!(decode(&enc, 1, true), Ok(msg.to_string()));
    let enc3 = encode(noise(4000), msg.as_bytes(), 3, true).unwrap();
    assert_eq!(decode(&enc3, 3, true), Ok(msg.to_string()));
}

#[test]
fn repeat_round_trip_with_multibyte_message() {
    let msg = "привет";
    let enc = encode(noise(3000), msg.as_bytes(), 2, true).unwrap();
    assert_eq!(decode(&enc, 2, true), Ok(msg.to_string()));
}

#[test]
fn repeat_decode_of_periodic_message_collapses() {
    let enc = encode(vec![0i16; 8 * 7], b"abababa", 1, false).unwrap();
    assert_eq!(decode(&enc, 1, true), Ok("ab".to_string()));
}

#[test]
fn decode_stops_at_first_malformed_byte() {
    let s: Vec<i16> = vec![b'h' as i16, b'i' as i16, 0x7fff, b'x' as i16];
    assert_eq!(decode(&s, 8, false), Ok("hi".to_string()));
}

#[test]
fn decode_reads_only_low_byte() {
    let s: Vec<i16> = vec![0x1200 | b'o' as i16, -256 | b'k' as i16];
    assert_eq!(decode(&s, 8, false), Ok("ok".to_string()));
}

#[test]
fn decode_noise_is_deterministic() {
    let s = noise(5000);
    for b in 1..=8u8 {
        let first = decode(&s, b, false).unwrap();
        let second = decode(&s, b, false).unwrap();
        assert_eq!(first, second);
        assert!(!first.contains('\u{fffd}'));
    }
}

#[test]
fn decode_drops_partial_byte() {
    // Seven samples at width 1 give no whole byte.
    assert_eq!(decode(&[1, 0, 0, 0, 0, 1, 0], 1, false), Ok(String::new()));
    assert_eq!(assemble_bytes(&[1, 0, 0, 0, 0, 1, 0], 1), Vec::<u8>::new());
}

#[test]
fn assemble_bytes_exact_values() {
    assert_eq!(assemble_bytes(&[1, 0, 0, 0, 0, 1, 1, 0], 1), vec![0x61]);
    assert_eq!(assemble_bytes(&[0x11, 0x06, 0x7f], 4), vec![0x61]);
    assert_eq!(assemble_bytes(&[0x0161, -1], 8), vec![0x61, 0xff]);
}

#[test]
fn decode_caps_assembled_bytes() {
    let s = vec![b'a' as i16; 100_000];
    assert_eq!(assemble_bytes(&s, 8).len(), MAX_DECODED_BYTES);
    let text = decode(&s, 8, false).unwrap();
    assert_eq!(text.len(), MAX_DECODED_BYTES);
    let ones = vec![1i16; 100_000];
    assert_eq!(assemble_bytes(&ones, 1).len(), MAX_DECODED_BYTES);
}

#[test]
fn decode_repeat_of_long_buffer() {
    let s = vec![b'a' as i16; 100_000];
    assert_eq!(decode(&s, 8, true), Ok("a".to_string()));
}

#[test]
fn payload_text_cuts_at_malformed_or_replacement() {
    assert_eq!(payload_text_of(b"hi\xffx"), "hi");
    assert_eq!(payload_text_of("héllo".as_bytes()), "héllo");
    assert_eq!(payload_text_of("a\u{fffd}b".as_bytes()), "a");
    assert_eq!(payload_text_of(b"ab\xe2\x82"), "ab");
    assert_eq!(payload_text_of(b""), "");
}
