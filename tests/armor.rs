use rcrypt::armor::{read_armored, read_pubkey, segment_spans, verify_checksum, HedwigError};
use rustc_serialize::base64::{FromBase64Error, ToBase64, STANDARD};

fn crc_bytes(x: u32) -> Vec<u8> {
    vec![(x >> 16) as u8, (x >> 8) as u8, x as u8]
}

#[test]
fn zero_byte_is_accepted() {
    let r = read_armored("AA===YWnT=".to_string());
    assert_eq!(r.unwrap(), vec![0x00]);
}

#[test]
fn encoded_data_and_checksum_round_trip() {
    for d in [b"hello".to_vec(), vec![0x00], vec![0xFF, 0x00, 0x7F, 0x80], (0..=255u8).collect()] {
        let crc = rcrypt::crc24::calc_crc(&d);
        let text = format!("{}={}=", d.to_base64(STANDARD), crc_bytes(crc).to_base64(STANDARD));
        assert_eq!(read_armored(text).unwrap(), d);
    }
}

#[test]
fn hello_is_accepted_without_padding() {
    let r = read_armored("aGVsbG8=R/WK".to_string());
    assert_eq!(r.unwrap(), b"hello".to_vec());
}

#[test]
fn empty_data_has_no_data_segment() {
    let r = read_armored("=twTO".to_string());
    assert!(matches!(r, Err(HedwigError::Data)));
}

#[test]
fn swapped_segments_are_rejected() {
    let r = read_armored("YWnT=AA==".to_string());
    assert!(matches!(r, Err(HedwigError::CrcFormat)));
    let r = read_armored("R/WK=aGVsbG8=".to_string());
    assert!(matches!(r, Err(HedwigError::CrcFormat)));
}

#[test]
fn flipped_data_bit_is_a_mismatch() {
    let r = read_armored("aGVsbG4==R/WK=".to_string());
    assert!(matches!(r, Err(HedwigError::Crc)));
}

#[test]
fn every_flipped_data_bit_is_a_mismatch() {
    let d = vec![0x10, 0x20, 0x30];
    let claimed = crc_bytes(rcrypt::crc24::calc_crc(&d)).to_base64(STANDARD);
    for i in 0..d.len() {
        for k in 0..8 {
            let mut e = d.clone();
            e[i] ^= 1u8 << k;
            let text = format!("{}={}", e.to_base64(STANDARD), claimed);
            assert!(matches!(read_armored(text), Err(HedwigError::Crc)));
        }
    }
}

#[test]
fn wrong_checksum_is_a_mismatch() {
    let r = read_armored("AA=twTO".to_string());
    assert!(matches!(r, Err(HedwigError::Crc)));
}

#[test]
fn two_byte_checksum_is_a_size_error() {
    let r = read_armored("AA=YWk".to_string());
    assert!(matches!(r, Err(HedwigError::CrcFormat)));
}

#[test]
fn four_byte_checksum_is_a_size_error() {
    let r = read_armored("AA=YWnTAA".to_string());
    assert!(matches!(r, Err(HedwigError::CrcFormat)));
}

#[test]
fn no_segment_is_a_structural_error() {
    assert!(matches!(read_armored(String::new()), Err(HedwigError::Data)));
    assert!(matches!(read_armored("===".to_string()), Err(HedwigError::Data)));
}

#[test]
fn one_segment_is_a_structural_error() {
    assert!(matches!(read_armored("AAAA".to_string()), Err(HedwigError::Data)));
}

#[test]
fn three_segments_are_a_structural_error() {
    let r = read_armored("AA=YWnT=AA".to_string());
    assert!(matches!(r, Err(HedwigError::Data)));
}

#[test]
fn invalid_data_character_is_a_decoding_error() {
    let r = read_armored("A*AA=YWnT".to_string());
    assert!(matches!(r, Err(HedwigError::Base64(FromBase64Error::InvalidBase64Byte(b'*', 1)))));
}

#[test]
fn invalid_data_length_is_a_decoding_error() {
    let r = read_armored("AAAAA=YWnT".to_string());
    assert!(matches!(r, Err(HedwigError::Base64(FromBase64Error::InvalidBase64Length))));
}

#[test]
fn invalid_checksum_character_is_a_decoding_error() {
    let r = read_armored("AA=YW!T".to_string());
    assert!(matches!(r, Err(HedwigError::Base64(_))));
}

#[test]
fn spans_cover_the_runs_between_delimiters() {
    assert_eq!(segment_spans("AA===YWnT="), vec![(0, 2), (5, 9)]);
    assert_eq!(segment_spans("=a==bc=d"), vec![(1, 2), (4, 6), (7, 8)]);
    assert_eq!(segment_spans("=="), vec![]);
    assert_eq!(segment_spans("é=ü"), vec![(0, 1), (2, 3)]);
}

#[test]
fn checksum_check_on_decoded_bytes() {
    assert_eq!(verify_checksum(vec![0x00], &vec![0x61, 0x69, 0xD3]).unwrap(), vec![0x00]);
    assert_eq!(verify_checksum(vec![], &vec![0xB7, 0x04, 0xCE]).unwrap(), Vec::<u8>::new());
    assert!(matches!(verify_checksum(vec![0x00], &vec![0x61, 0x69, 0xD4]), Err(HedwigError::Crc)));
    assert!(matches!(verify_checksum(vec![0x00], &vec![0x61, 0x69]), Err(HedwigError::CrcFormat)));
    assert!(matches!(
        verify_checksum(vec![0x00], &vec![0x61, 0x69, 0xD3, 0x00]),
        Err(HedwigError::CrcFormat)
    ));
}

#[test]
fn pubkey_check_follows_the_armor_check() {
    assert!(read_pubkey("aGVsbG8=R/WK".to_string()).is_ok());
    assert!(matches!(read_pubkey("aGVsbG8=R/WL".to_string()), Err(HedwigError::Crc)));
}

#[test]
fn error_messages() {
    assert_eq!(HedwigError::Crc.message(), "CRC does not match");
    assert_eq!(HedwigError::CrcFormat.message(), "CRC is not the correct size");
    assert_eq!(HedwigError::Data.message(), "Expects two base64 blobs");
    assert_eq!(HedwigError::Base64(FromBase64Error::InvalidBase64Length).message(), "Invalid length");
}

#[test]
fn decoding_error_converts() {
    let e = HedwigError::from(FromBase64Error::InvalidBase64Length);
    assert!(matches!(e, HedwigError::Base64(FromBase64Error::InvalidBase64Length)));
}
