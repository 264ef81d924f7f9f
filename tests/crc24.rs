use rcrypt::crc24::calc_crc;

#[test]
fn crc_of_no_bytes_is_the_seed() {
    assert_eq!(calc_crc(&vec![]), 0x00B7_04CE);
}

#[test]
fn crc_of_a_zero_byte() {
    assert_eq!(calc_crc(&vec![0x00]), 0x0061_69D3);
}

#[test]
fn crc_of_hello() {
    assert_eq!(calc_crc(&b"hello".to_vec()), 0x0047_F58A);
}

#[test]
fn crc_of_three_bytes() {
    assert_eq!(calc_crc(&vec![0x01, 0x02, 0x03]), 0x0067_6193);
}

#[test]
fn crc_is_the_same_on_every_call() {
    let d = b"The quick brown fox".to_vec();
    let first = calc_crc(&d);
    for _ in 0..5 {
        assert_eq!(calc_crc(&d), first);
    }
}

#[test]
fn crc_fits_in_24_bits() {
    let d: Vec<u8> = (0..=255u8).collect();
    assert!(calc_crc(&d) <= 0x00FF_FFFF);
}

#[test]
fn crc_changes_with_every_single_bit_flip() {
    let d = b"hello".to_vec();
    let base = calc_crc(&d);
    for i in 0..d.len() {
        for k in 0..8 {
            let mut e = d.clone();
            e[i] ^= 1u8 << k;
            assert_ne!(calc_crc(&e), base);
        }
    }
}
