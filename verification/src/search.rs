//! The key search engine: walks the candidate keyspace in enumeration
//! order and returns the first candidate that passes the two-block oracle,
//! or reports exhaustion when no candidate does.
//!
//! The oracle decrypts the first body block and expects one of two
//! accepted 4-byte magic headers, and decrypts the last body block and
//! expects valid block padding. The header check alone admits roughly one
//! spurious candidate in `2^32`; requiring the independent padding check
//! on a different block is what makes the first passing candidate the
//! answer.

use crate::cipher::des_decrypt_block;
use crate::cipher::des_decrypt_spec;
use crate::keyspace::advance_key;
use crate::keyspace::key_index;
use crate::keyspace::key_of_index;
use crate::keyspace::lemma_key_index_inverse;
use crate::keyspace::min_key;
use crate::keyspace::pow16;
use crate::keyspace::wf_key;
use crate::padding::pkcs5_verify;
use crate::padding::spec_pad_len;
use vstd::prelude::*;

verus! {

/// The first accepted magic header.
pub open spec fn magic_a() -> Seq<u8> {
    seq![0xFFu8, 0xD8u8, 0xFFu8, 0xE0u8]
}

/// The second accepted magic header.
pub open spec fn magic_b() -> Seq<u8> {
    seq![0xFFu8, 0xD8u8, 0xFFu8, 0xE1u8]
}

/// A recovered first block begins with one of the two accepted magic
/// headers.
pub open spec fn header_ok(p: Seq<u8>) -> bool {
    p.subrange(0, 4) == magic_a() || p.subrange(0, 4) == magic_b()
}

/// A candidate key passes the two-block oracle: the first body block
/// decrypts to a block carrying an accepted header, and the last body
/// block decrypts to a block carrying valid padding.
pub open spec fn oracle_passes(key: Seq<u8>, first: Seq<u8>, last: Seq<u8>) -> bool {
    &&& header_ok(des_decrypt_spec(key, first))
    &&& spec_pad_len(des_decrypt_spec(key, last)) != 0
}

/// A candidate that matches the header on the first block but whose last
/// block decrypts to invalid padding does not pass the oracle: the search
/// rejects it and moves on.
pub proof fn lemma_header_match_alone_rejected(key: Seq<u8>, first: Seq<u8>, last: Seq<u8>)
    requires
        spec_pad_len(des_decrypt_spec(key, last)) == 0,
    ensures
        !oracle_passes(key, first, last),
{
}

/// Tests one candidate against the oracle: decrypts the first body block
/// and checks the header, and only on a match decrypts the last body
/// block and validates its padding. Returns the recovered padding length
/// when the candidate passes and `0` when it does not.
pub fn try_key(key: &[u8; 8], first: &[u8; 8], last: &[u8; 8]) -> (pad: u64)
    ensures
        (pad != 0) == oracle_passes(key@, first@, last@),
        pad != 0 ==> pad == spec_pad_len(des_decrypt_spec(key@, last@)) && 1 <= pad <= 8,
{
    let p = des_decrypt_block(key, first);
    if p[0] == 0xFF && p[1] == 0xD8 && p[2] == 0xFF && (p[3] == 0xE0 || p[3] == 0xE1) {
        proof {
            if p@[3] == 0xE0 {
                assert(p@.subrange(0, 4) =~= magic_a());
            } else {
                assert(p@.subrange(0, 4) =~= magic_b());
            }
        }
        let q = des_decrypt_block(key, last);
        pkcs5_verify(&q)
    } else {
        proof {
            let sub = p@.subrange(0, 4);
            assert(sub[0] == p@[0] && sub[1] == p@[1] && sub[2] == p@[2] && sub[3] == p@[3]);
            assert(magic_a()[0] == 0xFF && magic_a()[1] == 0xD8 && magic_a()[2] == 0xFF
                && magic_a()[3] == 0xE0);
            assert(magic_b()[0] == 0xFF && magic_b()[1] == 0xD8 && magic_b()[2] == 0xFF
                && magic_b()[3] == 0xE1);
        }
        0
    }
}

/// Searches the keyspace in enumeration order, beginning at the candidate
/// `start`, for the first candidate that passes the two-block oracle.
/// Returns that candidate with its recovered padding length, or `None`
/// when every candidate from `start` to the end of the keyspace fails the
/// oracle.
#[verifier::loop_isolation(false)]
pub fn find_key_from(start: &[u8; 8], first: &[u8; 8], last: &[u8; 8]) -> (r: Option<
    ([u8; 8], u64),
>)
    requires
        wf_key(start@),
    ensures
        match r {
            Some(kp) => {
                &&& wf_key(kp.0@)
                &&& key_index(start@) <= key_index(kp.0@) < pow16(8)
                &&& oracle_passes(kp.0@, first@, last@)
                &&& kp.1 == spec_pad_len(des_decrypt_spec(kp.0@, last@))
                &&& 1 <= kp.1 <= 8
                &&& forall|j: int|
                    key_index(start@) <= j < key_index(kp.0@) ==> !oracle_passes(
                        key_of_index(j, 8),
                        first@,
                        last@,
                    )
            },
            None => forall|j: int|
                key_index(start@) <= j < pow16(8) ==> !oracle_passes(
                    key_of_index(j, 8),
                    first@,
                    last@,
                ),
        },
{
    let mut key: [u8; 8] = *start;
    let ghost start_i: int = key_index(start@);
    let ghost mut cur: int = start_i;
    proof {
        crate::keyspace::lemma_key_index_bounds(start@);
    }
    loop
        invariant
            wf_key(key@),
            key_index(key@) == cur,
            start_i <= cur < pow16(8),
            forall|j: int|
                start_i <= j < cur ==> !oracle_passes(key_of_index(j, 8), first@, last@),
        decreases pow16(8) - cur,
    {
        let pad = try_key(&key, first, last);
        if pad != 0 {
            return Some((key, pad));
        }
        proof {
            lemma_key_index_inverse(key@);
            assert(key_of_index(cur, 8) == key@);
        }
        let more = advance_key(&mut key);
        if !more {
            return None;
        }
        proof {
            cur = cur + 1;
        }
    }
}

/// Searches the whole keyspace, from the minimum candidate upward, for
/// the first candidate that passes the two-block oracle.
pub fn find_key(first: &[u8; 8], last: &[u8; 8]) -> (r: Option<([u8; 8], u64)>)
    ensures
        match r {
            Some(kp) => {
                &&& wf_key(kp.0@)
                &&& 0 <= key_index(kp.0@) < pow16(8)
                &&& oracle_passes(kp.0@, first@, last@)
                &&& kp.1 == spec_pad_len(des_decrypt_spec(kp.0@, last@))
                &&& 1 <= kp.1 <= 8
                &&& forall|j: int|
                    0 <= j < key_index(kp.0@) ==> !oracle_passes(key_of_index(j, 8), first@, last@)
            },
            None => forall|j: int|
                0 <= j < pow16(8) ==> !oracle_passes(key_of_index(j, 8), first@, last@),
        },
{
    let k0 = min_key();
    find_key_from(&k0, first, last)
}

} // verus!
