//! Recovery of files encrypted block-by-block under a deliberately weak
//! 8-byte key whose bytes are drawn from the sixteen ASCII symbols
//! `'0'..='9', 'A'..='F'`.
//!
//! The library enumerates the whole candidate keyspace in odometer order,
//! tests each candidate against a two-block oracle (a known plaintext
//! header in the first block and valid block padding in the last block),
//! and, once a key passes, decrypts the body and strips the padding so the
//! output has exactly the original byte length.

pub mod cipher;
pub mod keyspace;
pub mod padding;
pub mod pipeline;
pub mod search;
