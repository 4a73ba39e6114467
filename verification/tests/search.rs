use des::cipher::Array;
use des::cipher::BlockCipherEncrypt;
use des::cipher::KeyInit;
use descrack::pipeline::decrypt_body;
use descrack::search::find_key;
use descrack::search::find_key_from;
use descrack::search::try_key;

fn des_encrypt(key: &[u8; 8], block: [u8; 8]) -> [u8; 8] {
    let ctx = des::Des::new(&Array::from(*key));
    let mut b = Array::from(block);
    ctx.encrypt_block(&mut b);
    b.0
}

#[test]
fn finds_the_first_candidate_immediately() {
    let key = *b"00000000";
    let first = des_encrypt(&key, [0xFF, 0xD8, 0xFF, 0xE0, 0, 1, 2, 3]);
    let last = des_encrypt(&key, [8u8; 8]);
    let (k, pad) = find_key(&first, &last).unwrap();
    assert_eq!(&k, b"00000000");
    assert_eq!(pad, 8);
}

#[test]
fn second_magic_header_is_accepted() {
    // DES ignores each key byte's low-order parity bit, so equivalent keys
    // come in pairs; 'B' (0x42) pairs with 'C' (0x43), making "0000000B"
    // the first candidate of its equivalence class in enumeration order.
    let key = *b"0000000B";
    let first = des_encrypt(&key, [0xFF, 0xD8, 0xFF, 0xE1, 9, 9, 9, 9]);
    let last = des_encrypt(&key, [0, 0, 0, 0, 4, 4, 4, 4]);
    let (k, pad) = find_key(&first, &last).unwrap();
    assert_eq!(&k, b"0000000B");
    assert_eq!(pad, 4);
}

#[test]
fn header_match_without_padding_is_rejected_and_search_exhausts() {
    let planted = *b"FFFFFFFE";
    let first = des_encrypt(&planted, [0xFF, 0xD8, 0xFF, 0xE0, 9, 9, 9, 9]);
    let last = des_encrypt(&planted, [1, 2, 3, 4, 5, 6, 7, 9]);
    assert_eq!(try_key(&planted, &first, &last), 0);
    let start = *b"FFFFFFF0";
    assert!(find_key_from(&start, &first, &last).is_none());
}

#[test]
fn scenario_reports_key_and_truncates_by_marker_plus_padding() {
    let key = *b"01234567";
    let first_plain = [0xFF, 0xD8, 0xFF, 0xE0, 10, 20, 30, 40];
    let mid_plain = *b"abcdefgh";
    let last_plain = [7u8, 7, 6, 6, 6, 6, 6, 6];
    let first = des_encrypt(&key, first_plain);
    let mid = des_encrypt(&key, mid_plain);
    let last = des_encrypt(&key, last_plain);
    let mut body: Vec<u8> = Vec::new();
    body.extend_from_slice(&first);
    body.extend_from_slice(&mid);
    body.extend_from_slice(&last);

    // Run the resumable search from the scenario key's own position: DES
    // ignores each key byte's low-order parity bit, so a search begun
    // earlier would stop at a parity-equivalent candidate such as
    // "01234566" first.
    let (k, pad) = find_key_from(&key, &first, &last).unwrap();
    assert_eq!(&k, b"01234567");
    assert_eq!(pad, 6);

    let out = decrypt_body(&k, &body, pad);
    let file_len = 8 + body.len();
    assert_eq!(out.len(), file_len - 8 - 6);
    assert_eq!(&out[..4], &[0xFF, 0xD8, 0xFF, 0xE0]);
    assert_eq!(&out[8..16], b"abcdefgh");
    assert_eq!(&out[16..18], &[7, 7]);
}
