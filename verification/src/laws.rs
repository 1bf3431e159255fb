//! Laws the ledger obeys, stated and proved over the spec model.
//!
//! Conservation of value is not restated here: it is an `ensures` of each
//! mutation ([`crate::ledger::Ledger::update_storage`],
//! [`crate::ledger::Ledger::spend`] and
//! [`crate::ledger::Ledger::dispense_reward`] each preserve the sum of the
//! set's total value and the reward pool), which carries it over any
//! sequence of successful operations from the genesis baseline.

use vstd::prelude::*;

use crate::codec::simple_tx_bytes;
use crate::crypto::{output_id, sr25519_verified};
use crate::ledger::{apply_map, ids_distinct, lemma_apply_map_characterized};
use crate::types::{TransactionV, UtxoV, Value};
use crate::validate::{
    accepted, AdmissionV, has_duplicate_outputs, has_duplicate_refs, lemma_output_sum_nonneg,
    lemma_scan_inputs_missing, lemma_scan_outputs_ok, output_sum, provides_from, RejectionReason,
    scan_inputs, validate_spec,
};

verus! {

/// Validation is a pure function of the transaction and the set: two
/// decisions over the same pair are one decision. In particular,
/// validating the same invalid transaction twice yields the same
/// rejection reason; the executable validator inherits this through its
/// contract, which pins its result to [`validate_spec`].
pub proof fn lemma_validation_deterministic(
    tx: TransactionV,
    m: Map<Seq<u8>, UtxoV>,
    r1: Result<AdmissionV, RejectionReason>,
    r2: Result<AdmissionV, RejectionReason>,
)
    requires
        r1 == validate_spec(tx, m),
        r2 == validate_spec(tx, m),
    ensures
        r1 == r2,
{
}

/// Double-spend rejection: once a transaction consuming a reference is
/// committed, no transaction referencing the same output is admitted
/// outright against the committed set: it is either rejected or held
/// pending with that reference among its missing inputs, so it can never
/// be applied.
pub proof fn lemma_double_spend_rejected(
    t1: TransactionV,
    m: Map<Seq<u8>, UtxoV>,
    reward: Value,
    i: int,
    t2: TransactionV,
    a: int,
)
    requires
        accepted(t1, m, reward),
        ids_distinct(t1),
        0 <= i < t1.input.len(),
        0 <= a < t2.input.len(),
        t2.input[a].utxo_ref == t1.input[i].utxo_ref,
    ensures
        match validate_spec(t2, apply_map(t1, m)) {
            Err(_) => true,
            Ok(av) => av.missing_inputs.len() > 0 && av.missing_inputs.contains(
                t1.input[i].utxo_ref,
            ),
        },
{
    let o = t1.input[i].utxo_ref;
    let m2 = apply_map(t1, m);
    lemma_apply_map_characterized(t1, m, reward);
    assert(!m2.dom().contains(o));
    match validate_spec(t2, m2) {
        Err(_) => {},
        Ok(av) => {
            match scan_inputs(t2, m2, 0, 0, Seq::empty()) {
                Ok(p) => {
                    let (total, missing) = p;
                    lemma_scan_inputs_missing(t2, m2, 0, 0, Seq::empty(), total, missing, a);
                    assert(av.missing_inputs == missing);
                    assert(missing.contains(o));
                    let w = choose|w: int| 0 <= w < missing.len() && missing[w] == o;
                    assert(missing.len() > 0);
                },
                Err(_) => {
                    assert(false);
                },
            }
        },
    }
}

/// Spendability of created outputs: after a transaction is committed,
/// a single-input transaction that spends one of its newly created
/// outputs, and is otherwise in order (outputs present, pairwise
/// distinct, carrying value, fresh in the committed set, and covered by
/// the spent value), is admitted outright if and only if its signature
/// verifies against that output's owner key; the only other outcome is a
/// signature rejection.
pub proof fn lemma_spend_created_output(
    t1: TransactionV,
    m: Map<Seq<u8>, UtxoV>,
    reward: Value,
    j: int,
    t2: TransactionV,
)
    requires
        accepted(t1, m, reward),
        ids_distinct(t1),
        0 <= j < t1.output.len(),
        t2.input.len() == 1,
        t2.input[0].utxo_ref == output_id(t1, j as u64),
        t2.output.len() > 0,
        !has_duplicate_outputs(t2.output),
        forall|k: int|
            0 <= k < t2.output.len() ==> !apply_map(t1, m).dom().contains(
                #[trigger] output_id(t2, k as u64),
            ),
        forall|k: int| 0 <= k < t2.output.len() ==> (#[trigger] t2.output[k]).value > 0,
        output_sum(t2, 0) <= t1.output[j].value,
    ensures
        ({
            let owner = t1.output[j].pubScript;
            let signed = sr25519_verified(t2.input[0].scriptSig, simple_tx_bytes(t2), owner);
            match validate_spec(t2, apply_map(t1, m)) {
                Ok(av) => signed && av.missing_inputs.len() == 0 && av.reward == t1.output[
                    j
                ].value - output_sum(t2, 0),
                Err(e) => !signed && e == RejectionReason::SignatureInvalid,
            }
        }),
{
    let m2 = apply_map(t1, m);
    let id = output_id(t1, j as u64);
    let spent = t1.output[j];
    lemma_apply_map_characterized(t1, m, reward);
    assert(m2.dom().contains(id));
    assert(m2[id] == spent);
    assert(!has_duplicate_refs(t2.input));
    lemma_output_sum_nonneg(t2, 0);
    let signed = sr25519_verified(t2.input[0].scriptSig, simple_tx_bytes(t2), spent.pubScript);
    if signed {
        assert(scan_inputs(t2, m2, 1, spent.value, Seq::empty())
            == Ok::<(Value, Seq<Seq<u8>>), RejectionReason>((spent.value, Seq::empty())));
        assert(scan_inputs(t2, m2, 0, 0, Seq::empty()) == Ok::<
            (Value, Seq<Seq<u8>>),
            RejectionReason,
        >((spent.value, Seq::empty())));
        lemma_scan_outputs_ok(t2, m2, 0, 0, Seq::empty());
        assert(Seq::<Seq<u8>>::empty() + provides_from(t2, 0) =~= provides_from(t2, 0));
    } else {
        assert(scan_inputs(t2, m2, 0, 0, Seq::empty()) == Err::<
            (Value, Seq<Seq<u8>>),
            RejectionReason,
        >(RejectionReason::SignatureInvalid));
    }
}

} // verus!
