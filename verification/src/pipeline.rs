//! The decryption pipeline and the file envelope: an encrypted file is the
//! 8-byte marker `"ENCRYPT:"` followed by a body whose length is a
//! multiple of 8, made of independent 8-byte cipher blocks with block
//! padding at the end. Once the key is confirmed the body is decrypted
//! block by block and the output truncated to the original byte length.

use crate::cipher::des_decrypt_block;
use crate::cipher::des_decrypt_spec;
use crate::cipher::des_encrypt_block;
use crate::keyspace::key_index;
use crate::keyspace::key_of_index;
use crate::keyspace::pow16;
use crate::keyspace::rep;
use crate::keyspace::wf_key;
use crate::padding::lemma_padding_accepts;
use crate::padding::spec_pad_len;
use crate::search::find_key;
use crate::search::oracle_passes;
use vstd::arithmetic::div_mod::lemma_fundamental_div_mod;
use vstd::arithmetic::div_mod::lemma_fundamental_div_mod_converse;
use vstd::prelude::*;

verus! {

/// The 8-byte envelope marker, ASCII `"ENCRYPT:"`.
pub open spec fn marker() -> Seq<u8> {
    seq![0x45u8, 0x4Eu8, 0x43u8, 0x52u8, 0x59u8, 0x50u8, 0x54u8, 0x3Au8]
}

/// A file image carries the envelope: at least 8 bytes, beginning with
/// the marker.
pub open spec fn has_marker(d: Seq<u8>) -> bool {
    d.len() >= 8 && d.subrange(0, 8) == marker()
}

/// The `i`-th aligned 8-byte block of a body.
pub open spec fn block_of(body: Seq<u8>, i: int) -> Seq<u8>
    recommends
        0 <= i,
        8 * i + 8 <= body.len(),
{
    body.subrange(8 * i, 8 * i + 8)
}

/// The blockwise decryption of a body under a key: every aligned 8-byte
/// block decrypted independently, in order.
pub open spec fn decrypted_body(key: Seq<u8>, body: Seq<u8>) -> Seq<u8>
    recommends
        body.len() % 8 == 0,
{
    Seq::new(body.len(), |j: int| des_decrypt_spec(key, block_of(body, j / 8))[j % 8])
}

/// The padding length that the last block of a body decrypts to under a
/// key: `0` when that block carries no valid padding.
pub open spec fn body_pad(key: Seq<u8>, body: Seq<u8>) -> u64
    recommends
        body.len() >= 8,
{
    spec_pad_len(des_decrypt_spec(key, body.subrange(body.len() - 8, body.len() as int)))
}

/// What the pipeline recovers from a body under a key: the blockwise
/// decryption, truncated by the padding length read from its last block.
pub open spec fn recovered_body(key: Seq<u8>, body: Seq<u8>) -> Seq<u8>
    recommends
        body.len() >= 8,
        body.len() % 8 == 0,
{
    decrypted_body(key, body).take(body.len() - body_pad(key, body))
}

/// Appending bytes to a body leaves its existing aligned blocks as they
/// were.
proof fn lemma_block_stable(a: Seq<u8>, b: Seq<u8>, i: int)
    requires
        0 <= i,
        8 * i + 8 <= a.len(),
    ensures
        block_of(a + b, i) == block_of(a, i),
{
    assert(block_of(a + b, i) =~= block_of(a, i));
}

/// Copies the aligned 8-byte block at byte offset `off` out of a byte
/// vector.
#[verifier::loop_isolation(false)]
pub fn read_block(data: &Vec<u8>, off: usize) -> (b: [u8; 8])
    requires
        off + 8 <= data@.len(),
    ensures
        b@ == data@.subrange(off as int, off as int + 8),
{
    let n = data.len();
    proof {
        assert(off + 8 <= n);
    }
    let mut b: [u8; 8] = [0u8; 8];
    let mut i: usize = 0;
    while i < 8
        invariant
            i <= 8,
            forall|t: int| 0 <= t < i ==> b@[t] == data@[off + t],
        decreases 8 - i,
    {
        b[i] = data[off + i];
        i += 1;
    }
    proof {
        assert(b@ =~= data@.subrange(off as int, off as int + 8));
    }
    b
}

/// Appends the 8 bytes of a block to a byte vector.
#[verifier::loop_isolation(false)]
fn push_block(out: &mut Vec<u8>, b: &[u8; 8])
    ensures
        final(out)@ == old(out)@ + b@,
{
    let mut t: usize = 0;
    while t < 8
        invariant
            t <= 8,
            out@ == old(out)@ + b@.take(t as int),
        decreases 8 - t,
    {
        proof {
            assert(old(out)@ + b@.take(t as int + 1) =~= (old(out)@ + b@.take(t as int)).push(
                b@[t as int],
            ));
        }
        out.push(b[t]);
        t += 1;
    }
    proof {
        assert(old(out)@ + b@.take(8) =~= old(out)@ + b@);
    }
}

/// Returns the bytes of a vector from the byte offset `start` on.
#[verifier::loop_isolation(false)]
fn tail_from(data: &Vec<u8>, start: usize) -> (out: Vec<u8>)
    requires
        start <= data@.len(),
    ensures
        out@ == data@.skip(start as int),
{
    let n = data.len();
    let mut out: Vec<u8> = Vec::new();
    let mut i: usize = start;
    while i < n
        invariant
            start <= i <= n,
            out@ == data@.subrange(start as int, i as int),
        decreases n - i,
    {
        proof {
            assert(data@.subrange(start as int, i as int + 1) =~= data@.subrange(
                start as int,
                i as int,
            ).push(data@[i as int]));
        }
        out.push(data[i]);
        i += 1;
    }
    proof {
        assert(data@.subrange(start as int, n as int) =~= data@.skip(start as int));
    }
    out
}

/// Decrypts a body block by block under the given key, in order, and
/// truncates the result by the given padding length, so the output length
/// is the body length less `pad`.
#[verifier::loop_isolation(false)]
pub fn decrypt_body(key: &[u8; 8], body: &Vec<u8>, pad: u64) -> (out: Vec<u8>)
    requires
        body@.len() % 8 == 0,
        body@.len() >= 8,
        1 <= pad <= 8,
    ensures
        out@ == decrypted_body(key@, body@).take(body@.len() - pad),
{
    let n = body.len();
    let mut out: Vec<u8> = Vec::new();
    let mut off: usize = 0;
    while off < n
        invariant
            n == body@.len(),
            n % 8 == 0,
            off % 8 == 0,
            off <= n,
            out@.len() == off,
            forall|j: int| 0 <= j < off ==> out@[j] == decrypted_body(key@, body@)[j],
        decreases n - off,
    {
        proof {
            lemma_fundamental_div_mod(off as int, 8);
            lemma_fundamental_div_mod(n as int, 8);
        }
        assert(off + 8 <= n);
        let block = read_block(body, off);
        let plain = des_decrypt_block(key, &block);
        proof {
            assert(block@ == block_of(body@, off as int / 8));
        }
        let ghost prev = out@;
        push_block(&mut out, &plain);
        proof {
            assert forall|j: int| 0 <= j < off + 8 implies out@[j] == decrypted_body(
                key@,
                body@,
            )[j] by {
                if j < off {
                    assert(out@[j] == prev[j]);
                } else {
                    let t: int = j - off;
                    lemma_fundamental_div_mod_converse(j, 8, off as int / 8, t);
                    assert(out@[j] == plain@[t]);
                }
            }
        }
        off += 8;
    }
    let ghost full = decrypted_body(key@, body@);
    proof {
        assert(out@ =~= full.take(n as int));
        assert(full.take(n as int) =~= full);
    }
    let mut rem: u64 = pad;
    while rem > 0
        invariant
            rem <= pad,
            out@ == full.take(n - pad + rem),
        decreases rem,
    {
        proof {
            assert(full.take(n - pad + rem).drop_last() =~= full.take(n - pad + rem - 1));
        }
        let _popped = out.pop();
        rem -= 1;
    }
    out
}

/// The number of padding bytes appended to a plaintext of length `l`:
/// `8 - l % 8`, between 1 and 8, a full block when `l` is already
/// aligned.
pub open spec fn pad_amount(l: int) -> int {
    8 - (l % 8)
}

/// A plaintext padded to a block boundary: the appended padding bytes
/// each hold the padding count.
pub open spec fn padded(data: Seq<u8>) -> Seq<u8> {
    data + rep(pad_amount(data.len() as int) as u8, pad_amount(data.len() as int) as nat)
}

/// Pads a plaintext to a block boundary and encrypts it block by block
/// under the given key. Decrypting the resulting body under the same key
/// and stripping the padding read from its last block returns exactly the
/// original plaintext: the round trip through the cipher is the
/// identity.
#[verifier::loop_isolation(false)]
pub fn encrypt_with_padding(key: &[u8; 8], data: &Vec<u8>) -> (body: Vec<u8>)
    requires
        data@.len() + 8 <= usize::MAX,
    ensures
        body@.len() == data@.len() + pad_amount(data@.len() as int),
        body@.len() % 8 == 0,
        body@.len() >= 8,
        decrypted_body(key@, body@) == padded(data@),
        body_pad(key@, body@) == pad_amount(data@.len() as int),
        recovered_body(key@, body@) == data@,
{
    let n: usize = data.len();
    let padv: u8 = (8 - (n % 8)) as u8;
    assert(padv == pad_amount(data@.len() as int));
    let mut plain: Vec<u8> = Vec::new();
    let mut i: usize = 0;
    while i < n
        invariant
            i <= n,
            plain@ == data@.take(i as int),
        decreases n - i,
    {
        proof {
            assert(data@.take(i as int + 1) =~= data@.take(i as int).push(data@[i as int]));
        }
        plain.push(data[i]);
        i += 1;
    }
    proof {
        assert(data@.take(n as int) =~= data@);
    }
    let mut t: usize = 0;
    while t < (padv as usize)
        invariant
            t <= padv,
            plain@ == data@ + rep(padv, t as nat),
        decreases padv - t,
    {
        proof {
            assert(data@ + rep(padv, (t + 1) as nat) =~= (data@ + rep(padv, t as nat)).push(padv));
        }
        plain.push(padv);
        t += 1;
    }
    proof {
        assert(data@ + rep(padv, 0) =~= data@);
        assert(plain@ =~= padded(data@));
    }
    let m: usize = plain.len();
    let mut body: Vec<u8> = Vec::new();
    let mut off: usize = 0;
    while off < m
        invariant
            m == plain@.len(),
            m == n + padv,
            m % 8 == 0,
            off % 8 == 0,
            off <= m,
            body@.len() == off,
            forall|bj: int|
                0 <= bj < off / 8 ==> des_decrypt_spec(key@, #[trigger] block_of(body@, bj))
                    == block_of(plain@, bj),
        decreases m - off,
    {
        proof {
            lemma_fundamental_div_mod(off as int, 8);
            lemma_fundamental_div_mod(m as int, 8);
        }
        assert(off + 8 <= m);
        let block = read_block(&plain, off);
        let cblock = des_encrypt_block(key, &block);
        let ghost prev = body@;
        push_block(&mut body, &cblock);
        proof {
            lemma_fundamental_div_mod_converse(off as int + 8, 8, off as int / 8 + 1, 0);
            assert forall|bj: int| 0 <= bj < (off + 8) / 8 implies des_decrypt_spec(
                key@,
                #[trigger] block_of(body@, bj),
            ) == block_of(plain@, bj) by {
                if bj < off as int / 8 {
                    lemma_block_stable(prev, cblock@, bj);
                } else {
                    assert(bj == off as int / 8);
                    assert(block_of(body@, bj) =~= cblock@);
                    assert(block@ == block_of(plain@, bj));
                }
            }
        }
        off += 8;
    }
    proof {
        lemma_fundamental_div_mod(m as int, 8);
        assert forall|j: int| 0 <= j < m implies decrypted_body(key@, body@)[j] == plain@[j] by {
            lemma_fundamental_div_mod(j, 8);
            let bj: int = j / 8;
            assert(0 <= bj < m as int / 8);
            assert(des_decrypt_spec(key@, block_of(body@, bj)) == block_of(plain@, bj));
            assert(block_of(plain@, bj)[j % 8] == plain@[j]);
        }
        assert(decrypted_body(key@, body@) =~= padded(data@));
        let last = body@.subrange(body@.len() - 8, body@.len() as int);
        assert(last =~= block_of(body@, m as int / 8 - 1)) by {
            lemma_fundamental_div_mod(m as int, 8);
        }
        let dlast = des_decrypt_spec(key@, last);
        assert(dlast == block_of(plain@, m as int / 8 - 1));
        assert forall|i2: int| 8 - padv <= i2 < 8 implies dlast[i2] == padv by {
            assert(dlast[i2] == plain@[m - 8 + i2]);
            assert(m - 8 + i2 >= n);
            assert(plain@[m - 8 + i2] == rep(padv, padv as nat)[m - 8 + i2 - n]);
        }
        lemma_padding_accepts(dlast, padv);
        assert(body_pad(key@, body@) == padv);
        assert(recovered_body(key@, body@) =~= data@);
    }
    body
}

/// What a run of the pipeline recovered: either the input reproduced
/// unchanged because it carried no envelope marker, or the decrypted,
/// padding-stripped contents together with the key that passed the
/// oracle.
pub enum Recovered {
    Plain { data: Vec<u8> },
    Decrypted { key: [u8; 8], data: Vec<u8> },
}

/// Why a run of the pipeline gave no output: the body length is not a
/// multiple of the block size, the envelope carries no body at all, or
/// the whole keyspace was enumerated without any candidate passing the
/// oracle.
#[derive(Clone, Copy, PartialEq, Eq, Structural, Debug)]
pub enum RecoverError {
    PartialBlock,
    EmptyBody,
    KeyNotFound,
}

/// Compares the first 8 bytes of a file image with the envelope marker.
pub fn is_marker(head: &[u8; 8]) -> (r: bool)
    ensures
        r == (head@ == marker()),
{
    let r = head[0] == 0x45 && head[1] == 0x4E && head[2] == 0x43 && head[3] == 0x52 && head[4]
        == 0x59 && head[5] == 0x50 && head[6] == 0x54 && head[7] == 0x3A;
    proof {
        if r {
            assert(head@ =~= marker());
        } else {
            assert(marker()[0] == 0x45 && marker()[1] == 0x4E && marker()[2] == 0x43 && marker()[3]
                == 0x52 && marker()[4] == 0x59 && marker()[5] == 0x50 && marker()[6] == 0x54
                && marker()[7] == 0x3A);
        }
    }
    r
}

/// Runs the whole pipeline on a file image. A file that does not begin
/// with the 8-byte marker is reproduced byte for byte, with no decryption
/// attempted. A file that does is required to carry a non-empty body
/// whose length is a multiple of 8; the keyspace is then searched from
/// the minimum candidate, and the first candidate passing the two-block
/// oracle decrypts the body, which is truncated by the recovered padding
/// length. When the whole keyspace is exhausted without a match, the key
/// is reported not found.
pub fn recover(input: &Vec<u8>) -> (r: Result<Recovered, RecoverError>)
    ensures
        match r {
            Ok(rec) => match rec {
                Recovered::Plain { data } => !has_marker(input@) && data@ == input@,
                Recovered::Decrypted { key, data } => {
                    let body = input@.skip(8);
                    &&& has_marker(input@)
                    &&& body.len() >= 8
                    &&& body.len() % 8 == 0
                    &&& wf_key(key@)
                    &&& oracle_passes(
                        key@,
                        body.subrange(0, 8),
                        body.subrange(body.len() - 8, body.len() as int),
                    )
                    &&& forall|j: int|
                        0 <= j < key_index(key@) ==> !oracle_passes(
                            key_of_index(j, 8),
                            body.subrange(0, 8),
                            body.subrange(body.len() - 8, body.len() as int),
                        )
                    &&& data@ == recovered_body(key@, body)
                },
            },
            Err(e) => match e {
                RecoverError::PartialBlock => has_marker(input@) && input@.skip(8).len() % 8 != 0,
                RecoverError::EmptyBody => has_marker(input@) && input@.skip(8).len() == 0,
                RecoverError::KeyNotFound => {
                    let body = input@.skip(8);
                    &&& has_marker(input@)
                    &&& body.len() >= 8
                    &&& body.len() % 8 == 0
                    &&& forall|j: int|
                        0 <= j < pow16(8) ==> !oracle_passes(
                            key_of_index(j, 8),
                            body.subrange(0, 8),
                            body.subrange(body.len() - 8, body.len() as int),
                        )
                },
            },
        },
{
    let n: usize = input.len();
    if n < 8 {
        let data = tail_from(input, 0);
        proof {
            assert(input@.skip(0) =~= input@);
        }
        return Ok(Recovered::Plain { data });
    }
    let head = read_block(input, 0);
    if !is_marker(&head) {
        let data = tail_from(input, 0);
        proof {
            assert(input@.skip(0) =~= input@);
        }
        return Ok(Recovered::Plain { data });
    }
    let body_len: usize = n - 8;
    if body_len % 8 != 0 {
        return Err(RecoverError::PartialBlock);
    }
    if body_len == 0 {
        return Err(RecoverError::EmptyBody);
    }
    let body = tail_from(input, 8);
    let first = read_block(&body, 0);
    let last = read_block(&body, body_len - 8);
    match find_key(&first, &last) {
        Some((key, pad)) => {
            let data = decrypt_body(&key, &body, pad);
            Ok(Recovered::Decrypted { key, data })
        },
        None => Err(RecoverError::KeyNotFound),
    }
}

} // verus!
