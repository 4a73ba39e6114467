use descrack::padding::pkcs5_verify;

#[test]
fn accepts_every_pad_length() {
    for p in 1u8..=8 {
        let mut b = [0xABu8; 8];
        let mut i = 8 - p as usize;
        while i < 8 {
            b[i] = p;
            i += 1;
        }
        assert_eq!(pkcs5_verify(&b), p as u64);
    }
}

#[test]
fn accepts_full_block_padding() {
    assert_eq!(pkcs5_verify(&[8u8; 8]), 8);
}

#[test]
fn pad_one_ignores_leading_bytes() {
    assert_eq!(pkcs5_verify(&[0, 99, 2, 250, 4, 5, 6, 1]), 1);
}

#[test]
fn rejects_zero_pad_byte() {
    assert_eq!(pkcs5_verify(&[1, 2, 3, 4, 5, 6, 7, 0]), 0);
}

#[test]
fn rejects_pad_byte_above_eight() {
    assert_eq!(pkcs5_verify(&[1, 2, 3, 4, 5, 6, 7, 9]), 0);
    assert_eq!(pkcs5_verify(&[1, 2, 3, 4, 5, 6, 7, 255]), 0);
}

#[test]
fn rejects_inconsistent_padding() {
    assert_eq!(pkcs5_verify(&[1, 2, 3, 4, 5, 6, 9, 3]), 0);
    assert_eq!(pkcs5_verify(&[8, 8, 8, 8, 8, 8, 8, 7]), 0);
    assert_eq!(pkcs5_verify(&[2, 2, 2, 2, 2, 2, 3, 2]), 0);
}
