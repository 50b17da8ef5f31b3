use music_finder::hash::hash_tuple;

#[test]
fn packs_the_three_fields() {
    let expected: u64 = (430u64 << 48) | ((860u64 & 0xFFFF) << 16) | (500u64 & 0xFFFF_FFFF);
    assert_eq!(hash_tuple(430, 860, 500), expected);
    assert_eq!(hash_tuple(430, 860, 500), 0x01AE_0000_035C_01F4);
}

#[test]
fn keeps_only_sixteen_bits_of_the_target_frequency() {
    assert_eq!(hash_tuple(0, 0x1_ABCD, 0), 0xABCD_0000);
}

#[test]
fn lays_the_delta_over_the_target_frequency() {
    assert_eq!(hash_tuple(1, 0x00F0, 0x0F0F_0001), (1u64 << 48) | 0x0FFF_0001);
    assert_eq!(hash_tuple(0, 0, 0x1_2345_6789), 0x2345_6789);
}

#[test]
fn drops_the_high_bits_of_the_anchor_frequency() {
    assert_eq!(hash_tuple(0x1_0001, 0, 0), 1u64 << 48);
}
