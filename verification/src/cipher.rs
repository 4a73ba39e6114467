//! The single-block cipher behind the pipeline: one fixed-size (8-byte)
//! block is decrypted or encrypted independently under an 8-byte key, with
//! no chaining state between blocks.

use des::cipher::Array;
use des::cipher::BlockCipherDecrypt;
use des::cipher::BlockCipherEncrypt;
use des::cipher::KeyInit;
use vstd::prelude::*;

verus! {

/// What DES decryption of one 8-byte block under an 8-byte key returns.
/// The result is a function of the key and block bytes alone.
pub uninterp spec fn des_decrypt_spec(key: Seq<u8>, block: Seq<u8>) -> Seq<u8>;

/// Decrypts one 8-byte block under the given 8-byte key.
///
/// Relies on `des::Des::new` (the DES key schedule) and
/// `cipher::BlockCipherDecrypt::decrypt_block`: deterministic single-block
/// DES decryption, depending on the key and block bytes alone.
#[verifier::external_body]
pub fn des_decrypt_block(key: &[u8; 8], block: &[u8; 8]) -> (out: [u8; 8])
    ensures
        out@ == des_decrypt_spec(key@, block@),
{
    let ctx = des::Des::new(&Array::from(*key));
    let mut b = Array::from(*block);
    ctx.decrypt_block(&mut b);
    b.0
}

/// Encrypts one 8-byte block under the given 8-byte key; decrypting the
/// result under the same key returns the block.
///
/// Relies on `des::Des::new` and
/// `cipher::BlockCipherEncrypt::encrypt_block`, and on DES decryption
/// being the inverse of DES encryption under one key: the two run the same
/// sixteen Feistel rounds with the round keys in opposite orders.
#[verifier::external_body]
pub fn des_encrypt_block(key: &[u8; 8], block: &[u8; 8]) -> (out: [u8; 8])
    ensures
        des_decrypt_spec(key@, out@) == block@,
{
    let ctx = des::Des::new(&Array::from(*key));
    let mut b = Array::from(*block);
    ctx.encrypt_block(&mut b);
    b.0
}

} // verus!
