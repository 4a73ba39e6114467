use des::cipher::Array;
use des::cipher::BlockCipherEncrypt;
use des::cipher::KeyInit;
use descrack::pipeline::decrypt_body;
use descrack::pipeline::encrypt_with_padding;
use descrack::pipeline::recover;
use descrack::pipeline::RecoverError;
use descrack::pipeline::Recovered;

fn des_encrypt(key: &[u8; 8], block: [u8; 8]) -> [u8; 8] {
    let ctx = des::Des::new(&Array::from(*key));
    let mut b = Array::from(block);
    ctx.encrypt_block(&mut b);
    b.0
}

#[test]
fn decrypt_body_inverts_the_cipher() {
    let key = *b"0A1B2C3D";
    let p1 = *b"ABCDEFGH";
    let p2 = [9u8, 9, 9, 9, 9, 9, 2, 2];
    let mut body: Vec<u8> = Vec::new();
    body.extend_from_slice(&des_encrypt(&key, p1));
    body.extend_from_slice(&des_encrypt(&key, p2));
    // the cipher really transformed the blocks
    assert_ne!(&body[..8], &p1);
    let out = decrypt_body(&key, &body, 2);
    assert_eq!(out.len(), 14);
    assert_eq!(&out[..8], b"ABCDEFGH");
    assert_eq!(&out[8..], &[9, 9, 9, 9, 9, 9]);
}

#[test]
fn pipeline_reproduces_the_plaintext_exactly() {
    // 'A' (0x41) has no partner under DES's ignored key parity bits, so
    // "0000000A" is the first candidate of its equivalence class and the
    // search reports exactly this key.
    let key = *b"0000000A";
    let mut data: Vec<u8> = vec![0xFF, 0xD8, 0xFF, 0xE0];
    for i in 0..23u8 {
        data.push(i);
    }
    let body = encrypt_with_padding(&key, &data);
    assert_eq!(body.len(), 32);
    let mut file: Vec<u8> = b"ENCRYPT:".to_vec();
    file.extend_from_slice(&body);
    match recover(&file) {
        Ok(Recovered::Decrypted { key: k, data: out }) => {
            assert_eq!(&k, &key);
            assert_eq!(out, data);
        },
        _ => panic!("expected a decrypted result"),
    }
}

#[test]
fn aligned_plaintext_gets_a_full_padding_block() {
    let key = *b"00000000";
    let data: Vec<u8> = vec![0xFF, 0xD8, 0xFF, 0xE1, 5, 6, 7, 8];
    let body = encrypt_with_padding(&key, &data);
    assert_eq!(body.len(), 16);
    let mut file: Vec<u8> = b"ENCRYPT:".to_vec();
    file.extend_from_slice(&body);
    match recover(&file) {
        Ok(Recovered::Decrypted { key: k, data: out }) => {
            assert_eq!(&k, &key);
            assert_eq!(out, data);
        },
        _ => panic!("expected a decrypted result"),
    }
}

#[test]
fn file_without_marker_is_reproduced_byte_for_byte() {
    let data: Vec<u8> = (0..40u8).collect();
    match recover(&data) {
        Ok(Recovered::Plain { data: out }) => assert_eq!(out, data),
        _ => panic!("expected a plain result"),
    }
}

#[test]
fn short_file_is_reproduced_byte_for_byte() {
    let data: Vec<u8> = vec![1, 2, 3];
    match recover(&data) {
        Ok(Recovered::Plain { data: out }) => assert_eq!(out, data),
        _ => panic!("expected a plain result"),
    }
}

#[test]
fn unaligned_file_without_marker_is_still_copied() {
    let data: Vec<u8> = (0..13u8).collect();
    match recover(&data) {
        Ok(Recovered::Plain { data: out }) => assert_eq!(out, data),
        _ => panic!("expected a plain result"),
    }
}

#[test]
fn partial_block_is_fatal() {
    let mut file: Vec<u8> = b"ENCRYPT:".to_vec();
    file.extend_from_slice(&[1, 2, 3]);
    match recover(&file) {
        Err(RecoverError::PartialBlock) => {},
        _ => panic!("expected the partial block error"),
    }
}

#[test]
fn marker_without_body_is_fatal() {
    let file: Vec<u8> = b"ENCRYPT:".to_vec();
    match recover(&file) {
        Err(RecoverError::EmptyBody) => {},
        _ => panic!("expected the empty body error"),
    }
}
