//! Hashing and signature checking, delegated to outside crates.
//!
//! The digest of a byte sequence and the outcome of a signature check are
//! functions of their arguments alone, but neither can be stated in a few
//! lines; each gets an uninterpreted name, and a trusted wrapper ties the
//! outside call to that name. Everything the ledger derives from a digest
//! (output identifiers, genesis keys, reward keys) is specified here over
//! those names.

use vstd::prelude::*;

use crate::codec::{compact_u32, encode_compact_u32, encode_u64, tx_bytes, u64_le, utxo_bytes};
use crate::types::{H256, H512, TransactionV, Utxo, UtxoV};

verus! {

/// The 256-bit Blake2b digest of a byte sequence. Uninterpreted: its value
/// is fixed by the outside hash function, identical on every node.
pub uninterp spec fn blake2_256_of(data: Seq<u8>) -> Seq<u8>;

/// Whether `sig` is a valid sr25519 signature by the holder of `key` over
/// `msg`. Uninterpreted: its value is fixed by the outside signature
/// scheme, identical on every node.
pub uninterp spec fn sr25519_verified(sig: Seq<u8>, msg: Seq<u8>, key: Seq<u8>) -> bool;

/// Relies on `sp_io::hashing::blake2_256`: a 256-bit Blake2b digest of the
/// data, depending on the data alone.
#[verifier::external_body]
pub(crate) fn blake2_256(data: &Vec<u8>) -> (r: H256)
    ensures
        r@ == blake2_256_of(data@),
{
    H256 { bytes: sp_io::hashing::blake2_256(data.as_slice()) }
}

/// Relies on `sp_io::crypto::sr25519_verify` (which runs
/// `sp_core::sr25519::Pair::verify`): whether the signature blob signs the
/// message under the public key, depending on the three arguments alone.
#[verifier::external_body]
pub(crate) fn sr25519_verify(sig: &H512, msg: &Vec<u8>, key: &H256) -> (r: bool)
    ensures
        r == sr25519_verified(sig@, msg@, key@),
{
    sp_io::crypto::sr25519_verify(
        &sp_core::sr25519::Signature::from_raw(sig.bytes),
        msg.as_slice(),
        &sp_core::sr25519::Public::from_raw(key.bytes),
    )
}

/// The identifier of the output at `index` of a transaction whose canonical
/// bytes are `enc`: the digest of the length-prefixed bytes followed by the
/// index. Prefixing the whole encoding and appending the position ties the
/// identifier to the producing transaction's full content and to the
/// output's place in it.
pub open spec fn output_id_of_enc(enc: Seq<u8>, index: u64) -> Seq<u8> {
    blake2_256_of(compact_u32(enc.len() as u32) + enc + u64_le(index))
}

/// The identifier of the output at `index` of transaction `tx`.
pub open spec fn output_id(tx: TransactionV, index: u64) -> Seq<u8> {
    output_id_of_enc(tx_bytes(tx), index)
}

/// The identifier of a genesis output: the digest of its own canonical
/// bytes, since no transaction produced it.
pub open spec fn genesis_id(u: UtxoV) -> Seq<u8> {
    blake2_256_of(utxo_bytes(u))
}

/// The identifier of a reward output minted in distribution round `epoch`:
/// the digest of its canonical bytes followed by the round counter, so that
/// identical shares minted in different rounds get distinct keys.
pub open spec fn reward_id(u: UtxoV, epoch: u64) -> Seq<u8> {
    blake2_256_of(utxo_bytes(u) + u64_le(epoch))
}

/// Derive the identifier of the output at `index` from the producing
/// transaction's canonical bytes `enc`.
pub fn transaction_output_id(enc: &Vec<u8>, index: u64) -> (r: H256)
    requires
        enc@.len() <= u32::MAX,
    ensures
        r@ == output_id_of_enc(enc@, index),
{
    let mut preimage = encode_compact_u32(enc.len() as u32);
    preimage.extend_from_slice(enc.as_slice());
    let index_bytes = encode_u64(index);
    preimage.extend_from_slice(index_bytes.as_slice());
    proof {
        assert(preimage@ =~= compact_u32(enc@.len() as u32) + enc@ + u64_le(index));
    }
    blake2_256(&preimage)
}

/// Derive the identifier under which a genesis output is stored.
pub fn genesis_utxo_id(u: &Utxo) -> (r: H256)
    ensures
        r@ == genesis_id(u@),
{
    let mut preimage = crate::codec::encode_u128(u.value);
    preimage.extend_from_slice(u.pubScript.bytes.as_slice());
    proof {
        assert(preimage@ =~= utxo_bytes(u@));
    }
    blake2_256(&preimage)
}

/// Derive the identifier under which a reward output minted in round
/// `epoch` is stored.
pub fn reward_utxo_id(u: &Utxo, epoch: u64) -> (r: H256)
    ensures
        r@ == reward_id(u@, epoch),
{
    let mut preimage = crate::codec::encode_u128(u.value);
    preimage.extend_from_slice(u.pubScript.bytes.as_slice());
    let epoch_bytes = encode_u64(epoch);
    preimage.extend_from_slice(epoch_bytes.as_slice());
    proof {
        assert(preimage@ =~= utxo_bytes(u@) + u64_le(epoch));
    }
    blake2_256(&preimage)
}

} // verus!
