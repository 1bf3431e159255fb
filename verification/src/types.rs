//! The data model: outputs, inputs, transactions, and their ghost views.

#![allow(non_snake_case)]

use vstd::prelude::*;

verus! {

/// The unit of account: an unsigned 128-bit amount.
pub type Value = u128;

/// A 256-bit digest, used both as an output identifier and as a
/// public-key-derived owner identifier.
#[derive(PartialEq, Eq, Clone, Copy, Debug)]
pub struct H256 {
    pub bytes: [u8; 32],
}

impl View for H256 {
    type V = Seq<u8>;

    open spec fn view(&self) -> Seq<u8> {
        self.bytes@
    }
}

/// A 512-bit signature blob.
#[derive(PartialEq, Eq, Clone, Copy, Debug)]
pub struct H512 {
    pub bytes: [u8; 64],
}

impl View for H512 {
    type V = Seq<u8>;

    open spec fn view(&self) -> Seq<u8> {
        self.bytes@
    }
}

/// The all-zero signature blob, put in place of each signature when the
/// signed message is formed.
pub open spec fn zero_sig() -> Seq<u8> {
    Seq::new(64, |_i: int| 0u8)
}

impl H512 {
    /// The all-zero signature blob.
    pub fn zero() -> (r: H512)
        ensures
            r@ == zero_sig(),
    {
        let r = H512 { bytes: [0u8; 64] };
        proof {
            broadcast use vstd::array::group_array_axioms;

            assert(r@ =~= zero_sig());
        }
        r
    }
}

impl H256 {
    /// Byte-wise equality of two identifiers, tied to their views.
    pub fn eq_bytes(&self, other: &H256) -> (r: bool)
        ensures
            r == (self@ == other@),
    {
        let mut i: usize = 0;
        while i < 32
            invariant
                i <= 32,
                forall|k: int| 0 <= k < i ==> self@[k] == other@[k],
            decreases 32 - i,
        {
            if self.bytes[i] != other.bytes[i] {
                proof {
                    broadcast use vstd::array::group_array_axioms;

                    assert(self@[i as int] != other@[i as int]);
                }
                return false;
            }
            i = i + 1;
        }
        proof {
            broadcast use vstd::array::group_array_axioms;

            assert(self@ =~= other@);
        }
        true
    }
}

/// An unspent transaction output: an amount locked to the owner of a key.
#[derive(PartialEq, Eq, Clone, Copy, Debug)]
pub struct Utxo {
    /// The amount this output holds.
    pub value: Value,
    /// The owner: a 256-bit public-key-derived identifier.
    pub pubScript: H256,
}

/// The ghost image of a [`Utxo`].
#[verifier::ext_equal]
pub ghost struct UtxoV {
    pub value: Value,
    pub pubScript: Seq<u8>,
}

impl View for Utxo {
    type V = UtxoV;

    open spec fn view(&self) -> UtxoV {
        UtxoV { value: self.value, pubScript: self.pubScript@ }
    }
}

impl Utxo {
    /// Equality of two outputs as values, tied to their views.
    pub fn eq_value(&self, other: &Utxo) -> (r: bool)
        ensures
            r == (self@ == other@),
    {
        let eq = self.value == other.value && self.pubScript.eq_bytes(&other.pubScript);
        proof {
            if eq {
                assert(self@ =~= other@);
            }
        }
        eq
    }
}

/// One spend: the identifier of the output being consumed and a signature
/// proving authority to consume it.
#[derive(PartialEq, Eq, Clone, Copy, Debug)]
pub struct TxInput {
    /// Identifier of the output being spent.
    pub utxo_ref: H256,
    /// Detached signature over the canonical transaction with all
    /// signature fields zeroed.
    pub scriptSig: H512,
}

/// The ghost image of a [`TxInput`].
#[verifier::ext_equal]
pub ghost struct TxInputV {
    pub utxo_ref: Seq<u8>,
    pub scriptSig: Seq<u8>,
}

impl View for TxInput {
    type V = TxInputV;

    open spec fn view(&self) -> TxInputV {
        TxInputV { utxo_ref: self.utxo_ref@, scriptSig: self.scriptSig@ }
    }
}

/// A transaction: outputs created and inputs consumed, both ordered.
#[derive(PartialEq, Eq, Clone, Debug)]
pub struct Transaction {
    /// Outputs this transaction creates.
    pub output: Vec<Utxo>,
    /// Inputs this transaction consumes.
    pub input: Vec<TxInput>,
}

/// The ghost image of a [`Transaction`].
#[verifier::ext_equal]
pub ghost struct TransactionV {
    pub output: Seq<UtxoV>,
    pub input: Seq<TxInputV>,
}

impl View for Transaction {
    type V = TransactionV;

    open spec fn view(&self) -> TransactionV {
        TransactionV {
            output: self.output@.map_values(|u: Utxo| u@),
            input: self.input@.map_values(|i: TxInput| i@),
        }
    }
}

} // verus!
