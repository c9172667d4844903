//! The SHA-1 digest of a message, computed by the `sha1` crate.

use vstd::prelude::*;

verus! {

/// The length of a digest in bytes.
pub const DIGEST_LEN: usize = 20;

/// The length from which on a message is not hashed: 2^61 bytes, whose count
/// of bits no longer fits the 64 bits that SHA-1 keeps for it.
pub const MESSAGE_LIMIT: u64 = 0x2000_0000_0000_0000;

/// The SHA-1 digest of `message`, as `sha1::Sha1` computes it.
pub uninterp spec fn sha1_digest(message: Seq<u8>) -> Seq<u8>;

/// Calls `<sha1::Sha1 as sha1::Digest>::digest` on `message` and copies its
/// output into a vector.
///
/// Not proved: that the call returns the same 20 bytes for the same message,
/// which `sha1_digest` names. The length is that of the crate's output type,
/// an array of 20 bytes. Messages of 2^61 bytes and more are left out: for
/// them the crate's count of message bits overflows.
#[verifier::external_body]
pub(crate) fn sha1(message: &[u8]) -> (digest: Vec<u8>)
    requires
        message@.len() < MESSAGE_LIMIT,
    ensures
        digest@ == sha1_digest(message@),
        digest@.len() == DIGEST_LEN,
{
    <sha1::Sha1 as sha1::Digest>::digest(message).to_vec()
}

} // verus!
