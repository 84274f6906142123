//! The beacon value of an epoch: the first `LAMBDA / 8` bytes of the
//! SHAKE256 output over the reconstructed secret's serialized bytes, shown
//! in hexadecimal.
use vstd::prelude::*;
use sha3::Shake256;
use sha3::digest::{ExtendableOutput, Update, XofReader};
use crate::text::hex_lower;

verus! {

/// The security parameter in bits; the beacon has `LAMBDA / 8` bytes.
pub const LAMBDA: usize = 256;

/// The first `len` bytes of the SHAKE256 output over `data`.
pub uninterp spec fn shake256_out(data: Seq<u8>, len: nat) -> Seq<u8>;

/// SHAKE256 over `data` (`update`, `finalize_xof`, `read` into `len`
/// bytes): the output is named; it has `len` bytes.
#[verifier::external_body]
fn shake256_prefix(data: &[u8], len: usize) -> (out: Vec<u8>)
    ensures
        out@ == shake256_out(data@, len as nat),
        out@.len() == len,
{
    let mut hasher = Shake256::default();
    hasher.update(data);
    let mut reader = hasher.finalize_xof();
    let mut out = vec![0u8; len];
    XofReader::read(&mut reader, &mut out);
    out
}

/// `hex::encode`: two lower-case hexadecimal digits per byte.
#[verifier::external_body]
fn hex_encode(bytes: &[u8]) -> (s: String)
    ensures
        s@ == hex_lower(bytes@),
{
    hex::encode(bytes)
}

/// The beacon value of the epoch whose reconstructed secret serializes to
/// `sigma_bytes`: the beacon bytes and their hexadecimal text.
pub fn beacon_value(sigma_bytes: &[u8]) -> (r: ([u8; 32], String))
    ensures
        r.0@ == shake256_out(sigma_bytes@, (LAMBDA / 8) as nat),
        r.1@ == hex_lower(shake256_out(sigma_bytes@, (LAMBDA / 8) as nat)),
        r.1@.len() == 2 * (LAMBDA / 8),
{
    let out = shake256_prefix(sigma_bytes, LAMBDA / 8);
    let mut arr: [u8; 32] = [0u8; 32];
    let mut k: usize = 0;
    while k < 32
        invariant
            out@.len() == 32,
            k <= 32,
            forall|j: int| 0 <= j < k ==> arr@[j] == out@[j],
        decreases 32 - k,
    {
        arr[k] = out[k];
        k = k + 1;
    }
    assert(arr@ =~= out@);
    let text = hex_encode(&arr);
    (arr, text)
}

} // verus!
