//! Canonical byte serialization of the data model.
//!
//! Every node must serialize a transaction to the same bytes, since the
//! bytes feed both the output-identifier hash and the signed message. The
//! layout is the one `parity_scale_codec` gives the data model: little-endian
//! integers, raw digest bytes, and sequences prefixed by a compact-encoded
//! length. The primitive pieces are obtained from `parity_scale_codec`
//! through trusted wrappers; the composition into a transaction's bytes is
//! verified against the spec-level layout below.

use vstd::prelude::*;

use crate::types::{Transaction, TransactionV, TxInputV, UtxoV, zero_sig};

verus! {

/// Little-endian bytes of a 16-bit integer.
pub open spec fn u16_le(n: u16) -> Seq<u8> {
    seq![n as u8, (n >> 8) as u8]
}

/// Little-endian bytes of a 32-bit integer.
pub open spec fn u32_le(n: u32) -> Seq<u8> {
    Seq::new(4, |i: int| (n >> ((8 * i) as u32)) as u8)
}

/// Little-endian bytes of a 64-bit integer.
pub open spec fn u64_le(n: u64) -> Seq<u8> {
    Seq::new(8, |i: int| (n >> ((8 * i) as u64)) as u8)
}

/// Little-endian bytes of a 128-bit integer.
pub open spec fn u128_le(n: u128) -> Seq<u8> {
    Seq::new(16, |i: int| (n >> ((8 * i) as u128)) as u8)
}

/// The compact (variable-width) encoding of a 32-bit length: two mode bits
/// in the lowest positions of the first byte select one, two, four or five
/// bytes of width.
pub open spec fn compact_u32(n: u32) -> Seq<u8> {
    if n < 0x40 {
        seq![(n << 2) as u8]
    } else if n < 0x4000 {
        u16_le(((n as u16) << 2) | 1)
    } else if n < 0x4000_0000 {
        u32_le((n << 2) | 2)
    } else {
        seq![3u8] + u32_le(n)
    }
}

/// Bytes of one output: its amount, then its owner digest.
pub open spec fn utxo_bytes(u: UtxoV) -> Seq<u8> {
    u128_le(u.value) + u.pubScript
}

/// Bytes of one input: the consumed identifier, then the signature blob.
pub open spec fn input_bytes(i: TxInputV) -> Seq<u8> {
    i.utxo_ref + i.scriptSig
}

/// Concatenated bytes of a sequence of outputs.
pub open spec fn utxos_bytes(s: Seq<UtxoV>) -> Seq<u8>
    decreases s.len(),
{
    if s.len() == 0 {
        Seq::empty()
    } else {
        utxos_bytes(s.drop_last()) + utxo_bytes(s.last())
    }
}

/// Concatenated bytes of a sequence of inputs.
pub open spec fn inputs_bytes(s: Seq<TxInputV>) -> Seq<u8>
    decreases s.len(),
{
    if s.len() == 0 {
        Seq::empty()
    } else {
        inputs_bytes(s.drop_last()) + input_bytes(s.last())
    }
}

/// Canonical bytes of a whole transaction: the outputs, then the inputs,
/// each as a length-prefixed sequence.
pub open spec fn tx_bytes(tx: TransactionV) -> Seq<u8> {
    compact_u32(tx.output.len() as u32) + utxos_bytes(tx.output) + compact_u32(
        tx.input.len() as u32,
    ) + inputs_bytes(tx.input)
}

/// The transaction with every input's signature blanked: the form whose
/// canonical bytes are signed, so that no signature signs over itself.
pub open spec fn blanked(tx: TransactionV) -> TransactionV {
    TransactionV {
        output: tx.output,
        input: tx.input.map_values(
            |i: TxInputV| TxInputV { utxo_ref: i.utxo_ref, scriptSig: zero_sig() },
        ),
    }
}

/// The signed message: canonical bytes of the blanked transaction.
pub open spec fn simple_tx_bytes(tx: TransactionV) -> Seq<u8> {
    tx_bytes(blanked(tx))
}

/// Whether a transaction's sequences fit the canonical serialization: the
/// serializer refuses (by panicking) any sequence of more than `u32::MAX`
/// items, and the identifier derivation length-prefixes the whole encoding
/// the same way.
pub open spec fn encodable(tx: TransactionV) -> bool {
    &&& tx.output.len() <= u32::MAX
    &&& tx.input.len() <= u32::MAX
    &&& tx_bytes(tx).len() <= u32::MAX
}

/// Relies on `parity_scale_codec`'s `Encode` for `u128`: the value's 16
/// little-endian bytes (`impl_endians!` uses `to_le_bytes`).
#[verifier::external_body]
pub(crate) fn encode_u128(v: u128) -> (r: Vec<u8>)
    ensures
        r@ == u128_le(v),
{
    parity_scale_codec::Encode::encode(&v)
}

/// Relies on `parity_scale_codec`'s `Encode` for `u64`: the value's 8
/// little-endian bytes (`impl_endians!` uses `to_le_bytes`).
#[verifier::external_body]
pub(crate) fn encode_u64(v: u64) -> (r: Vec<u8>)
    ensures
        r@ == u64_le(v),
{
    parity_scale_codec::Encode::encode(&v)
}

/// Relies on `parity_scale_codec`'s `Encode` for `Compact<u32>`: the
/// four-arm variable-width encoding mirrored by [`compact_u32`].
#[verifier::external_body]
pub(crate) fn encode_compact_u32(n: u32) -> (r: Vec<u8>)
    ensures
        r@ == compact_u32(n),
{
    parity_scale_codec::Encode::encode(&parity_scale_codec::Compact(n))
}

/// Canonical bytes of a transaction, as [`tx_bytes`] lays them out.
pub fn encode_transaction(tx: &Transaction) -> (r: Vec<u8>)
    requires
        tx@.output.len() <= u32::MAX,
        tx@.input.len() <= u32::MAX,
    ensures
        r@ == tx_bytes(tx@),
{
    let ghost txv = tx@;
    let mut out = encode_compact_u32(tx.output.len() as u32);
    assert(out@ == compact_u32(txv.output.len() as u32) + utxos_bytes(txv.output.take(0))) by {
        assert(txv.output.take(0) =~= Seq::<UtxoV>::empty());
        assert(out@ =~= out@ + Seq::<u8>::empty());
    }
    let mut j: usize = 0;
    while j < tx.output.len()
        invariant
            j <= tx.output.len(),
            txv == tx@,
            txv.output.len() <= u32::MAX,
            out@ == compact_u32(txv.output.len() as u32) + utxos_bytes(txv.output.take(j as int)),
        decreases tx.output.len() - j,
    {
        let u = &tx.output[j];
        let enc_value = encode_u128(u.value);
        out.extend_from_slice(enc_value.as_slice());
        out.extend_from_slice(u.pubScript.bytes.as_slice());
        proof {
            let pre = txv.output.take(j as int);
            let post = txv.output.take(j + 1);
            assert(post.drop_last() =~= pre);
            assert(post.last() == txv.output[j as int]);
            assert(txv.output[j as int] == tx.output@.map_values(|x: crate::types::Utxo| x@)[j as int]);
            assert(out@ =~= compact_u32(txv.output.len() as u32) + utxos_bytes(post));
        }
        j = j + 1;
    }
    assert(txv.output.take(tx.output.len() as int) =~= txv.output);
    let enc_in_len = encode_compact_u32(tx.input.len() as u32);
    out.extend_from_slice(enc_in_len.as_slice());
    assert(out@ == compact_u32(txv.output.len() as u32) + utxos_bytes(txv.output) + compact_u32(
        txv.input.len() as u32,
    ) + inputs_bytes(txv.input.take(0))) by {
        assert(txv.input.take(0) =~= Seq::<TxInputV>::empty());
        assert(out@ =~= out@ + Seq::<u8>::empty());
    }
    let mut k: usize = 0;
    while k < tx.input.len()
        invariant
            k <= tx.input.len(),
            txv == tx@,
            txv.output.len() <= u32::MAX,
            txv.input.len() <= u32::MAX,
            out@ == compact_u32(txv.output.len() as u32) + utxos_bytes(txv.output) + compact_u32(
                txv.input.len() as u32,
            ) + inputs_bytes(txv.input.take(k as int)),
        decreases tx.input.len() - k,
    {
        let i = &tx.input[k];
        out.extend_from_slice(i.utxo_ref.bytes.as_slice());
        out.extend_from_slice(i.scriptSig.bytes.as_slice());
        proof {
            let pre = txv.input.take(k as int);
            let post = txv.input.take(k + 1);
            assert(post.drop_last() =~= pre);
            assert(post.last() == txv.input[k as int]);
            assert(txv.input[k as int] == tx.input@.map_values(|x: crate::types::TxInput| x@)[k as int]);
            assert(out@ =~= compact_u32(txv.output.len() as u32) + utxos_bytes(txv.output)
                + compact_u32(txv.input.len() as u32) + inputs_bytes(post));
        }
        k = k + 1;
    }
    assert(txv.input.take(tx.input.len() as int) =~= txv.input);
    out
}

/// The signed message of a transaction: its canonical bytes with every
/// input's signature blanked, as [`simple_tx_bytes`] lays them out.
pub fn get_simple_transaction(tx: &Transaction) -> (r: Vec<u8>)
    requires
        tx@.output.len() <= u32::MAX,
        tx@.input.len() <= u32::MAX,
    ensures
        r@ == simple_tx_bytes(tx@),
{
    let mut outs: Vec<crate::types::Utxo> = Vec::new();
    let mut j: usize = 0;
    while j < tx.output.len()
        invariant
            j <= tx.output.len(),
            outs@ == tx.output@.take(j as int),
        decreases tx.output.len() - j,
    {
        outs.push(tx.output[j]);
        assert(outs@ =~= tx.output@.take(j + 1));
        j = j + 1;
    }
    assert(tx.output@.take(tx.output.len() as int) =~= tx.output@);
    let mut ins: Vec<crate::types::TxInput> = Vec::new();
    let mut k: usize = 0;
    while k < tx.input.len()
        invariant
            k <= tx.input.len(),
            ins@.len() == k,
            forall|m: int|
                0 <= m < k ==> #[trigger] ins@[m]@ == (TxInputV {
                    utxo_ref: tx.input@[m]@.utxo_ref,
                    scriptSig: zero_sig(),
                }),
        decreases tx.input.len() - k,
    {
        let zero = crate::types::H512::zero();
        ins.push(crate::types::TxInput { utxo_ref: tx.input[k].utxo_ref, scriptSig: zero });
        k = k + 1;
    }
    let blank = Transaction { output: outs, input: ins };
    proof {
        assert(blank@.output =~= blanked(tx@).output);
        assert forall|m: int| 0 <= m < tx.input@.len() implies #[trigger] blank@.input[m]
            == blanked(tx@).input[m] by {
            assert(blank@.input[m] == ins@[m]@);
            assert(tx@.input[m] == tx.input@[m]@);
        }
        assert(blank@.input =~= blanked(tx@).input);
        assert(blank@ =~= blanked(tx@));
    }
    encode_transaction(&blank)
}

} // verus!
