use image_duplicate::fingerprint::{ImageHash, HASH_BYTES};

fn hash(bytes: [u8; 8]) -> ImageHash {
    ImageHash::from_bytes(&bytes).unwrap()
}

#[test]
fn from_bytes_takes_eight_bytes() {
    assert_eq!(HASH_BYTES, 8);
    let h = ImageHash::from_bytes(&[1, 2, 3, 4, 5, 6, 7, 8]).unwrap();
    assert_eq!(h.as_bytes(), &[1, 2, 3, 4, 5, 6, 7, 8]);
}

#[test]
fn from_bytes_refuses_other_lengths() {
    assert!(ImageHash::from_bytes(&[]).is_none());
    assert!(ImageHash::from_bytes(&[1, 2, 3, 4, 5, 6, 7]).is_none());
    assert!(ImageHash::from_bytes(&[1, 2, 3, 4, 5, 6, 7, 8, 9]).is_none());
    assert!(ImageHash::from_bytes(&[0; 16]).is_none());
}

#[test]
fn dist_counts_differing_bits() {
    let zero = hash([0; 8]);
    assert_eq!(zero.dist(&hash([0b0000_0111, 0, 0, 0, 0, 0, 0, 0])), 3);
    assert_eq!(zero.dist(&hash([0xff, 0, 0, 0, 0, 0, 0, 0])), 8);
    assert_eq!(zero.dist(&hash([0xff; 8])), 64);
    assert_eq!(zero.dist(&hash([0x80, 0, 0, 0, 0, 0, 0, 0x01])), 2);
    assert_eq!(hash([0xf0, 1, 2, 3, 4, 5, 6, 7]).dist(&hash([0x0f, 1, 2, 3, 4, 5, 6, 7])), 8);
}

#[test]
fn dist_to_itself_is_zero() {
    let h = hash([9, 8, 7, 6, 5, 4, 3, 2]);
    assert_eq!(h.dist(&h), 0);
    assert_eq!(h.dist(&hash([9, 8, 7, 6, 5, 4, 3, 2])), 0);
}

#[test]
fn dist_is_symmetric() {
    let a = hash([0x12, 0x34, 0x56, 0x78, 0x9a, 0xbc, 0xde, 0xf0]);
    let b = hash([0xff, 0x00, 0xaa, 0x55, 0x0f, 0xf0, 0x33, 0xcc]);
    assert_eq!(a.dist(&b), b.dist(&a));
    assert_eq!(a.dist(&b), 36);
}

#[test]
fn dist_is_zero_only_for_equal_fingerprints() {
    let a = hash([1, 0, 0, 0, 0, 0, 0, 0]);
    let b = hash([0, 0, 0, 0, 0, 0, 0, 1]);
    assert_ne!(a, b);
    assert_eq!(a.dist(&b), 2);
}
