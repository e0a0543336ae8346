use reality_os::trits::{pack_trits32, trit_pack_selftest, unpack_trits32, STATES_PER_U64, DENSITY_GAIN_VS_U8};

#[test]
fn pack_places_code_i_at_bits_2i() {
    let mut codes = [0u8; 32];
    codes[0] = 1;
    codes[1] = 2;
    codes[31] = 1;
    let w = pack_trits32(&codes);
    assert_eq!(w, 1u64 | (2u64 << 2) | (1u64 << 62));
}

#[test]
fn pack_reduces_codes_modulo_three() {
    let mut codes = [0u8; 32];
    codes[0] = 4; // 4 % 3 == 1
    codes[1] = 255; // 255 % 3 == 0
    codes[2] = 5; // 5 % 3 == 2
    let w = pack_trits32(&codes);
    assert_eq!(w, 1u64 | (0u64 << 2) | (2u64 << 4));
}

#[test]
fn unpack_reads_two_bit_fields() {
    let codes = unpack_trits32(0b11_10_01_00);
    assert_eq!(&codes[0..4], &[0, 1, 2, 3]);
    assert!(codes[4..].iter().all(|&c| c == 0));
    assert_eq!(unpack_trits32(u64::MAX), [3u8; 32]);
}

#[test]
fn unpack_after_pack_round_trips_valid_codes() {
    let mut codes = [0u8; 32];
    for i in 0..32 {
        codes[i] = ((i * 7 + 1) % 3) as u8;
    }
    assert_eq!(unpack_trits32(pack_trits32(&codes)), codes);
}

#[test]
fn pack_after_unpack_restores_words_without_pattern_three() {
    let w: u64 = 0x1926_1852_4129_6a58 & 0x5555_5555_5555_5555;
    assert_eq!(pack_trits32(&unpack_trits32(w)), w);
    // A field holding 0b11 is not a trit: it comes back as 0.
    assert_eq!(pack_trits32(&unpack_trits32(0b11)), 0);
}

#[test]
fn hardware_pack_selftest_passes() {
    let (word, pack_ok, warp_ok) = trit_pack_selftest();
    let mut expected = 0u64;
    for i in 0..32u64 {
        expected |= (i % 3) << (2 * i);
    }
    assert_eq!(word, expected);
    assert!(pack_ok);
    assert!(warp_ok);
    assert_eq!(STATES_PER_U64, 32);
    assert_eq!(DENSITY_GAIN_VS_U8, 4);
}
