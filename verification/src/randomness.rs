//! The 16 pseudo-random bytes behind a new genome: a Blake2 hash over what
//! the runtime knows when a request is served.

use vstd::bytes::{spec_u32_to_le_bytes, spec_u64_to_le_bytes};
use vstd::prelude::*;
use crate::linked_list::AccountId;
use crate::module::Module;

verus! {

/// The bytes that are hashed: the chain's 32-byte random seed, the sender as
/// eight little-endian bytes, and the index of the extrinsic within its block
/// as an option: one zero byte where there is none, else a one byte and the
/// index as four little-endian bytes.
pub open spec fn payload_encoding(random_seed: Seq<u8>, sender: AccountId, extrinsic_index: Option<u32>) -> Seq<u8> {
    random_seed + spec_u64_to_le_bytes(sender) + match extrinsic_index {
        None => seq![0u8],
        Some(index) => seq![1u8] + spec_u32_to_le_bytes(index),
    }
}

/// The 128-bit Blake2b digest of `data`.
pub uninterp spec fn blake2_128_digest(data: Seq<u8>) -> Seq<u8>;

/// The random bytes that belong to one sender at one extrinsic of one block.
pub open spec fn random_value_spec(random_seed: Seq<u8>, sender: AccountId, extrinsic_index: Option<u32>) -> Seq<u8> {
    blake2_128_digest(payload_encoding(random_seed, sender, extrinsic_index))
}

/// `parity_scale_codec::Encode::encode` on the tuple of seed, sender and
/// extrinsic index. Trusted: a tuple encodes as its fields one after the
/// other, a byte array as its bytes, a fixed-width integer as its
/// little-endian bytes, an option as a 0 byte or as a 1 byte and the value.
#[verifier::external_body]
fn encode_payload(random_seed: &[u8; 32], sender: &AccountId, extrinsic_index: Option<u32>) -> (bytes: Vec<u8>)
    ensures
        bytes@ == payload_encoding(random_seed@, *sender, extrinsic_index),
{
    parity_scale_codec::Encode::encode(&(random_seed, sender, extrinsic_index))
}

/// `sp_io::hashing::blake2_128`. Trusted: the result is a function of the
/// input bytes alone; nothing else is claimed of it.
#[verifier::external_body]
fn blake2_128(data: &[u8]) -> (digest: [u8; 16])
    ensures
        digest@ == blake2_128_digest(data@),
{
    sp_io::hashing::blake2_128(data)
}

impl Module {
    /// Hashes the chain's random seed, the sender and the extrinsic index
    /// into the 16 random bytes that belong to them.
    pub fn random_value(sender: &AccountId, random_seed: &[u8; 32], extrinsic_index: Option<u32>) -> (value: [u8; 16])
        ensures
            value@ == random_value_spec(random_seed@, *sender, extrinsic_index),
    {
        let payload = encode_payload(random_seed, sender, extrinsic_index);
        blake2_128(payload.as_slice())
    }
}

} // verus!
