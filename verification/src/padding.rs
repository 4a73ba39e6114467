//! Block padding: the last `p` bytes of a padded 8-byte block all hold the
//! value `p`, with `1 <= p <= 8`, so a decoder can recover the original
//! length by reading the low-order byte and stripping that many bytes.

use vstd::prelude::*;

verus! {

/// The padding length encoded in an 8-byte block: its low-order byte `p`,
/// provided `1 <= p <= 8` and the last `p` bytes all equal `p`; `0` (an
/// impossible padding length) when the block carries no valid padding.
pub open spec fn spec_pad_len(b: Seq<u8>) -> u64
    recommends
        b.len() == 8,
{
    let p = b[7];
    if 1 <= p <= 8 && (forall|i: int| 8 - p <= i < 8 ==> b[i] == p) {
        p as u64
    } else {
        0u64
    }
}

/// Reads the padding length out of a decrypted final block: the value `p`
/// of its low-order byte when `1 <= p <= 8` and the block's last `p` bytes
/// all equal `p`, and `0` otherwise.
#[verifier::loop_isolation(false)]
pub fn pkcs5_verify(block: &[u8; 8]) -> (pad: u64)
    ensures
        pad == spec_pad_len(block@),
        pad == 0 || (1 <= pad <= 8 && pad == block@[7]),
{
    let p = block[7];
    if p == 0 || p > 8 {
        return 0;
    }
    let start: usize = 8 - (p as usize);
    let mut i: usize = start;
    while i < 8
        invariant
            start <= i <= 8,
            forall|j: int| start <= j < i ==> block@[j] == p,
        decreases 8 - i,
    {
        if block[i] != p {
            assert(block@[i as int] != p);
            return 0;
        }
        i += 1;
    }
    p as u64
}

/// A block whose last `p` bytes all equal `p`, for any `p` in `1..=8` and
/// whatever its earlier bytes hold, validates with recovered length
/// exactly `p`.
pub proof fn lemma_padding_accepts(b: Seq<u8>, p: u8)
    requires
        b.len() == 8,
        1 <= p <= 8,
        forall|i: int| 8 - p <= i < 8 ==> b[i] == p,
    ensures
        spec_pad_len(b) == p,
{
    assert(b[7] == p);
}

/// A block whose low-order byte is `0` or above `8`, or whose trailing
/// bytes are inconsistent with that byte, carries no valid padding and is
/// rejected.
pub proof fn lemma_padding_rejects(b: Seq<u8>)
    requires
        b.len() == 8,
        b[7] == 0 || b[7] > 8 || (exists|i: int| 8 - b[7] <= i < 8 && #[trigger] b[i] != b[7]),
    ensures
        spec_pad_len(b) == 0,
{
}

} // verus!
