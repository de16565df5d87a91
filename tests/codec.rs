use highper_cache::codec::{base64_decode, base64_encode, DecodeError};
use highper_cache::compression::{compress_to_text, decompress_from_text};

#[test]
fn test_compression() {
    let data = "Hello, World! This is a test string for compression.";
    let (compressed, compressed_size) = compress_to_text(data);
    assert!(!compressed.is_empty());
    assert!(compressed_size > 0);
    let decompressed = decompress_from_text(&compressed);
    assert!(decompressed.is_some());
    assert_eq!(decompressed.unwrap(), "Hello, World! This is a test string for compression.");
}

#[test]
fn compressed_text_is_encoded_block() {
    let (text, size) = compress_to_text("aaaaaaaaaaaaaaaaaaaaaaaaaaaaaaaaaaaaaaaa");
    let block = base64_decode(&text).unwrap();
    assert_eq!(block.len(), size);
    assert_eq!(&block[..4], &[40u8, 0, 0, 0]);
    assert!(size < 40);
}

#[test]
fn decompress_rejects_bad_input() {
    assert_eq!(decompress_from_text("!!!!"), None);
    assert_eq!(decompress_from_text("AAA"), None);
    assert_eq!(decompress_from_text("AAE="), None);
    let (empty, _) = compress_to_text("");
    assert_eq!(decompress_from_text(&empty), Some(String::new()));
}

#[test]
fn compress_round_trip_various_texts() {
    for text in ["", "a", "héllo wörld ✓", "abcabcabcabcabcabcabcabcabcabcabcabc"] {
        let (encoded, _) = compress_to_text(text);
        assert_eq!(decompress_from_text(&encoded), Some(String::from(text)));
    }
}

#[test]
fn hello_scenario() {
    assert_eq!(base64_encode(&[72, 101, 108, 108, 111]), "SGVsbG8=");
    assert_eq!(base64_decode("SGVsbG8="), Ok(vec![72, 101, 108, 108, 111]));
}

#[test]
fn padding_forms() {
    assert_eq!(base64_encode(&[]), "");
    assert_eq!(base64_encode(&[0]), "AA==");
    assert_eq!(base64_encode(&[0xff, 0xff]), "//8=");
    assert_eq!(base64_encode(&[0xfb, 0xff, 0xbf]), "+/+/");
    assert_eq!(base64_encode(b"Man"), "TWFu");
    assert_eq!(base64_decode(""), Ok(vec![]));
    assert_eq!(base64_decode("TWE="), Ok(b"Ma".to_vec()));
    assert_eq!(base64_decode("TQ=="), Ok(b"M".to_vec()));
}

fn round_trip(b: &[u8]) {
    let text = base64_encode(b);
    assert_eq!(text.len() % 4, 0);
    assert_eq!(base64_decode(&text), Ok(b.to_vec()));
}

#[test]
fn round_trip_all_lengths() {
    for n in 0..=300usize {
        let zeros = vec![0u8; n];
        let ones = vec![0xffu8; n];
        let mixed: Vec<u8> = (0..n).map(|i| ((i * 37 + 11) % 256) as u8).collect();
        round_trip(&zeros);
        round_trip(&ones);
        round_trip(&mixed);
    }
}

#[test]
fn round_trip_every_byte_value() {
    let all: Vec<u8> = (0..=255u8).collect();
    round_trip(&all);
}

#[test]
fn rejects_bad_length() {
    assert_eq!(base64_decode("SGVsbG8"), Err(DecodeError::InvalidLength));
    assert_eq!(base64_decode("A"), Err(DecodeError::InvalidLength));
    assert_eq!(base64_decode("TWFuTQ"), Err(DecodeError::InvalidLength));
}

#[test]
fn rejects_bad_character() {
    assert_eq!(base64_decode("SGV*bG8="), Err(DecodeError::InvalidCharacter));
    assert_eq!(base64_decode("é==="), Err(DecodeError::InvalidCharacter));
    assert_eq!(base64_decode("!!!!AB"), Err(DecodeError::InvalidCharacter));
}

#[test]
fn rejects_misplaced_pad() {
    assert_eq!(base64_decode("=AAA"), Err(DecodeError::InvalidCharacter));
    assert_eq!(base64_decode("AA=A"), Err(DecodeError::InvalidCharacter));
    assert_eq!(base64_decode("AA==TWFu"), Err(DecodeError::InvalidCharacter));
}
