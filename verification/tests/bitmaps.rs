use plumo_epochs::bitmap::{pack_bitmap, seal_bits_of_u64, seal_bits_to_u64, unpack_bitmap};

#[test]
fn unpack_low_bits() {
    let mut bytes = vec![0u8; 32];
    bytes[31] = 0b0000_0101;
    let bits = unpack_bitmap(&bytes);
    assert_eq!(bits.len(), 256);
    assert!(bits[0]);
    assert!(!bits[1]);
    assert!(bits[2]);
    for j in 3..256 {
        assert!(!bits[j]);
    }
}

#[test]
fn unpack_high_bit() {
    let mut bytes = vec![0u8; 32];
    bytes[0] = 0x80;
    let bits = unpack_bitmap(&bytes);
    assert_eq!(bits.len(), 256);
    assert!(bits[255]);
    for j in 0..255 {
        assert!(!bits[j]);
    }
}

#[test]
fn unpack_then_pack_recovers_bytes() {
    // every byte position and several bit patterns
    let bytes: Vec<u8> = (0u8..32).map(|i| i.wrapping_mul(37).wrapping_add(11)).collect();
    let bits = unpack_bitmap(&bytes);
    assert_eq!(bits.len(), 256);
    let packed = pack_bitmap(&bits);
    assert_eq!(packed, bytes);
}

#[test]
fn pack_then_unpack_recovers_bits() {
    let bits: Vec<bool> = (0..256).map(|i| i % 3 == 0 || i % 7 == 0).collect();
    let packed = pack_bitmap(&bits);
    assert_eq!(packed.len(), 32);
    let unpacked = unpack_bitmap(&packed);
    assert_eq!(unpacked, bits);
}

#[test]
fn zero_bitmap_unpacks_all_false() {
    let bytes = vec![0u8; 32];
    let bits = unpack_bitmap(&bytes);
    assert_eq!(bits, vec![false; 256]);
}

#[test]
fn seal_bits_digit_expansion() {
    // the seal bitmap is the binary digit string, most significant first
    assert_eq!(seal_bits_of_u64(0), vec![false]);
    assert_eq!(seal_bits_of_u64(1), vec![true]);
    assert_eq!(seal_bits_of_u64(2), vec![true, false]);
    assert_eq!(seal_bits_of_u64(5), vec![true, false, true]);
    assert_eq!(seal_bits_of_u64(6), vec![true, true, false]);
}

#[test]
fn seal_bits_round_trip() {
    for v in [0u64, 1, 2, 5, 6, 255, 256, 12345678901234567, u64::MAX] {
        let bits = seal_bits_of_u64(v);
        assert!(bits.len() <= 64);
        assert_eq!(seal_bits_to_u64(&bits), v);
    }
}

#[test]
fn seal_bits_max_width() {
    let bits = seal_bits_of_u64(u64::MAX);
    assert_eq!(bits, vec![true; 64]);
}
