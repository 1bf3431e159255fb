//! A verified core of a UTXO-style ledger.
//!
//! The crate decides whether a proposed transaction may spend outputs of the
//! current unspent-output set, commits the effects of an admitted transaction,
//! and splits the accrued reward pool among a recipient set. Hashing, byte
//! encoding and signature checking are delegated to outside crates behind
//! trusted wrappers; everything else is specified and proved.

pub mod codec;
pub mod crypto;
pub mod laws;
pub mod ledger;
pub mod minting;
pub mod types;
pub mod utxo_set;
pub mod validate;
