//! The two hash functions the records and manifests are checked with.
//! Both are computed by the `sha3` crate; what they return is named here and
//! never re-derived.
use vstd::prelude::*;
use sha3::digest::{ExtendableOutput, Update, XofReader};
use sha3::{Digest, Sha3_256, Shake256};

verus! {

/// SHA3-256 of a byte string (32 bytes).
pub uninterp spec fn sha3_256(data: Seq<u8>) -> [u8; 32];

/// The first 32 bytes of SHAKE-256 over a byte string.
pub uninterp spec fn shake256_32(data: Seq<u8>) -> [u8; 32];

/// `sha3::Sha3_256::digest`: the 32-byte SHA3-256 digest of `data`, a
/// function of `data` alone.
#[verifier::external_body]
pub(crate) fn sha3(data: &[u8]) -> (r: [u8; 32])
    ensures
        r == sha3_256(data@),
{
    Sha3_256::digest(data).into()
}

/// `sha3::Shake256` fed `data`, its XOF reader asked for 32 bytes: a
/// function of `data` alone.
#[verifier::external_body]
pub(crate) fn shake256(data: &[u8]) -> (r: [u8; 32])
    ensures
        r == shake256_32(data@),
{
    let mut x = Shake256::default();
    x.update(data);
    let mut out = [0u8; 32];
    x.finalize_xof().read(&mut out);
    out
}

} // verus!
