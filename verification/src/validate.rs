//! Transaction validation: a pure decision over a transaction and the
//! current unspent-output set.
//!
//! The decision is fixed by the spec function [`validate_spec`]; the
//! executable validator is proved to return exactly its value. Three
//! outcomes exist: a rejection with a reason; a pending admission, when
//! some inputs reference outputs not yet known (`missing_inputs`
//! non-empty, reward zero); and an outright admission carrying the
//! computed reward.

use vstd::prelude::*;

use crate::codec::{encodable, encode_transaction, get_simple_transaction, simple_tx_bytes};
use crate::crypto::{output_id, sr25519_verified, transaction_output_id, sr25519_verify};
use crate::types::{H256, Transaction, TransactionV, TxInputV, UtxoV, Value};
use crate::utxo_set::UtxoSet;

verus! {

/// Why a transaction was rejected, or why a state change was refused.
#[derive(PartialEq, Eq, Structural, Clone, Copy, Debug)]
pub enum RejectionReason {
    /// The transaction consumes nothing.
    NoInputs,
    /// The transaction creates nothing.
    NoOutputs,
    /// Two inputs reference the same output.
    DuplicateInput,
    /// Two outputs are equal as values.
    DuplicateOutput,
    /// An input's signature does not verify against the owner of the
    /// output it spends.
    SignatureInvalid,
    /// The sum of consumed values exceeds the 128-bit range.
    InputValueOverflow,
    /// An output carries no value.
    ZeroValueOutput,
    /// A created output's identifier is already present in the set.
    OutputCollision,
    /// The sum of created values exceeds the 128-bit range.
    OutputValueOverflow,
    /// The outputs carry more value than the inputs supply.
    OutputExceedsInput,
    /// An outright spend was asked of a transaction whose inputs are not
    /// all known.
    MissingInputs,
    /// Accruing the transaction's reward would overflow the pool.
    RewardOverflow,
    /// Two identifiers to be created collide with each other.
    DuplicateOutputId,
    /// A reward distribution was asked with no recipients while the pool
    /// holds value.
    NoRecipients,
}

/// A successful admission decision.
#[derive(Clone, Debug)]
pub struct Admission {
    /// The surplus of input value over output value; zero while any input
    /// is missing.
    pub reward: Value,
    /// Identifiers of referenced outputs not currently in the set. Empty
    /// means the transaction may be applied outright; non-empty means the
    /// decision is pending.
    pub missing_inputs: Vec<H256>,
    /// The identifiers the transaction's outputs will be stored under.
    pub provides: Vec<H256>,
}

/// The ghost image of an [`Admission`].
#[verifier::ext_equal]
pub ghost struct AdmissionV {
    pub reward: Value,
    pub missing_inputs: Seq<Seq<u8>>,
    pub provides: Seq<Seq<u8>>,
}

impl View for Admission {
    type V = AdmissionV;

    open spec fn view(&self) -> AdmissionV {
        AdmissionV {
            reward: self.reward,
            missing_inputs: self.missing_inputs@.map_values(|h: H256| h@),
            provides: self.provides@.map_values(|h: H256| h@),
        }
    }
}

/// The ghost image of a validation result.
pub open spec fn result_view(r: Result<Admission, RejectionReason>) -> Result<
    AdmissionV,
    RejectionReason,
> {
    match r {
        Ok(a) => Ok(a@),
        Err(e) => Err(e),
    }
}

/// Whether two inputs reference the same output.
pub open spec fn has_duplicate_refs(s: Seq<TxInputV>) -> bool {
    exists|i: int, j: int| 0 <= i < j < s.len() && s[i].utxo_ref == s[j].utxo_ref
}

/// Whether two outputs are equal as values.
pub open spec fn has_duplicate_outputs(s: Seq<UtxoV>) -> bool {
    exists|i: int, j: int| 0 <= i < j < s.len() && s[i] == s[j]
}

/// The input walk, from position `i` with the value consumed and the
/// missing references gathered so far: each known input must carry a valid
/// signature over the blanked transaction and its value must fit the
/// running sum; an unknown input is recorded rather than rejected.
pub open spec fn scan_inputs(
    tx: TransactionV,
    m: Map<Seq<u8>, UtxoV>,
    i: int,
    total: Value,
    missing: Seq<Seq<u8>>,
) -> Result<(Value, Seq<Seq<u8>>), RejectionReason>
    decreases tx.input.len() - i,
{
    if i < 0 || i >= tx.input.len() {
        Ok((total, missing))
    } else {
        let inp = tx.input[i];
        if m.dom().contains(inp.utxo_ref) {
            let u = m[inp.utxo_ref];
            if !sr25519_verified(inp.scriptSig, simple_tx_bytes(tx), u.pubScript) {
                Err(RejectionReason::SignatureInvalid)
            } else if total + u.value > u128::MAX {
                Err(RejectionReason::InputValueOverflow)
            } else {
                scan_inputs(tx, m, i + 1, (total + u.value) as Value, missing)
            }
        } else {
            scan_inputs(tx, m, i + 1, total, missing.push(inp.utxo_ref))
        }
    }
}

/// The output walk, from position `j` with the value created and the
/// identifiers derived so far: each output must carry value, its derived
/// identifier must not already exist in the set, and its value must fit
/// the running sum.
pub open spec fn scan_outputs(
    tx: TransactionV,
    m: Map<Seq<u8>, UtxoV>,
    j: int,
    total: Value,
    ids: Seq<Seq<u8>>,
) -> Result<(Value, Seq<Seq<u8>>), RejectionReason>
    decreases tx.output.len() - j,
{
    if j < 0 || j >= tx.output.len() {
        Ok((total, ids))
    } else {
        let o = tx.output[j];
        if o.value == 0 {
            Err(RejectionReason::ZeroValueOutput)
        } else {
            let id = output_id(tx, j as u64);
            if m.dom().contains(id) {
                Err(RejectionReason::OutputCollision)
            } else if total + o.value > u128::MAX {
                Err(RejectionReason::OutputValueOverflow)
            } else {
                scan_outputs(tx, m, j + 1, (total + o.value) as Value, ids.push(id))
            }
        }
    }
}

/// The admission decision for `tx` against set `m`: the checks in order,
/// the first failure naming the rejection; value may be judged only once
/// every input is known.
pub open spec fn validate_spec(tx: TransactionV, m: Map<Seq<u8>, UtxoV>) -> Result<
    AdmissionV,
    RejectionReason,
> {
    if tx.input.len() == 0 {
        Err(RejectionReason::NoInputs)
    } else if tx.output.len() == 0 {
        Err(RejectionReason::NoOutputs)
    } else if has_duplicate_refs(tx.input) {
        Err(RejectionReason::DuplicateInput)
    } else if has_duplicate_outputs(tx.output) {
        Err(RejectionReason::DuplicateOutput)
    } else {
        match scan_inputs(tx, m, 0, 0, Seq::empty()) {
            Err(e) => Err(e),
            Ok((total_input, missing)) => match scan_outputs(tx, m, 0, 0, Seq::empty()) {
                Err(e) => Err(e),
                Ok((total_output, ids)) => {
                    if missing.len() == 0 {
                        if total_input < total_output {
                            Err(RejectionReason::OutputExceedsInput)
                        } else {
                            Ok(
                                AdmissionV {
                                    reward: (total_input - total_output) as Value,
                                    missing_inputs: missing,
                                    provides: ids,
                                },
                            )
                        }
                    } else {
                        Ok(AdmissionV { reward: 0, missing_inputs: missing, provides: ids })
                    }
                },
            },
        }
    }
}

/// Whether the decision for `tx` against `m` is an outright admission
/// carrying `reward`: an `Ok` with no missing inputs. Only then may the
/// transaction's effects be committed.
pub open spec fn accepted(tx: TransactionV, m: Map<Seq<u8>, UtxoV>, reward: Value) -> bool {
    match validate_spec(tx, m) {
        Ok(av) => av.missing_inputs.len() == 0 && av.reward == reward,
        Err(_) => false,
    }
}

/// The value the inputs from position `i` on consume, each looked up in
/// `m` (meaningful when all are present).
pub open spec fn input_sum(tx: TransactionV, m: Map<Seq<u8>, UtxoV>, i: int) -> int
    decreases tx.input.len() - i,
{
    if i < 0 || i >= tx.input.len() {
        0
    } else {
        m[tx.input[i].utxo_ref].value + input_sum(tx, m, i + 1)
    }
}

/// The value the outputs from position `j` on create.
pub open spec fn output_sum(tx: TransactionV, j: int) -> int
    decreases tx.output.len() - j,
{
    if j < 0 || j >= tx.output.len() {
        0
    } else {
        tx.output[j].value + output_sum(tx, j + 1)
    }
}

/// The identifiers derived for the outputs from position `j` on.
pub open spec fn provides_from(tx: TransactionV, j: int) -> Seq<Seq<u8>>
    decreases tx.output.len() - j,
{
    if j < 0 || j >= tx.output.len() {
        Seq::empty()
    } else {
        seq![output_id(tx, j as u64)] + provides_from(tx, j + 1)
    }
}

/// An input walk that ended with no missing reference pins everything
/// down: it started with none gathered, every reference from `i` on is
/// present in the set, and the total is the running value plus the sum of
/// the referenced outputs' values.
pub proof fn lemma_scan_inputs_complete(
    tx: TransactionV,
    m: Map<Seq<u8>, UtxoV>,
    i: int,
    t: Value,
    ms: Seq<Seq<u8>>,
    total: Value,
    missing: Seq<Seq<u8>>,
)
    requires
        0 <= i <= tx.input.len(),
        scan_inputs(tx, m, i, t, ms) == Ok::<(Value, Seq<Seq<u8>>), RejectionReason>(
            (total, missing),
        ),
        missing.len() == 0,
    ensures
        ms.len() == 0,
        forall|k: int| i <= k < tx.input.len() ==> m.dom().contains(#[trigger] tx.input[k].utxo_ref),
        total == t + input_sum(tx, m, i),
    decreases tx.input.len() - i,
{
    if i < tx.input.len() {
        let inp = tx.input[i];
        if m.dom().contains(inp.utxo_ref) {
            let u = m[inp.utxo_ref];
            lemma_scan_inputs_complete(tx, m, i + 1, (t + u.value) as Value, ms, total, missing);
        } else {
            lemma_scan_inputs_complete(tx, m, i + 1, t, ms.push(inp.utxo_ref), total, missing);
        }
    }
}

/// An output walk that ended in success pins everything down: the
/// identifiers gathered are the starting ones followed by those derived
/// from `j` on, every derived identifier is absent from the set, every
/// output carries value, and the total is the running value plus the sum
/// of the outputs' values.
pub proof fn lemma_scan_outputs_complete(
    tx: TransactionV,
    m: Map<Seq<u8>, UtxoV>,
    j: int,
    t: Value,
    ids: Seq<Seq<u8>>,
    total: Value,
    provides: Seq<Seq<u8>>,
)
    requires
        0 <= j <= tx.output.len(),
        scan_outputs(tx, m, j, t, ids) == Ok::<(Value, Seq<Seq<u8>>), RejectionReason>(
            (total, provides),
        ),
    ensures
        provides == ids + provides_from(tx, j),
        forall|k: int|
            j <= k < tx.output.len() ==> !m.dom().contains(#[trigger] output_id(tx, k as u64)),
        forall|k: int| j <= k < tx.output.len() ==> (#[trigger] tx.output[k]).value > 0,
        total == t + output_sum(tx, j),
    decreases tx.output.len() - j,
{
    if j >= tx.output.len() {
        assert(provides =~= ids + provides_from(tx, j));
    } else {
        let o = tx.output[j];
        let id = output_id(tx, j as u64);
        lemma_scan_outputs_complete(
            tx,
            m,
            j + 1,
            (t + o.value) as Value,
            ids.push(id),
            total,
            provides,
        );
        assert(ids.push(id) + provides_from(tx, j + 1) =~= ids + (seq![id] + provides_from(
            tx,
            j + 1,
        )));
        assert forall|k: int| j <= k < tx.output.len() implies !m.dom().contains(
            #[trigger] output_id(tx, k as u64),
        ) by {
            if k == j {
                assert(!m.dom().contains(output_id(tx, j as u64)));
            }
        }
    }
}

/// An outright admission fixes the reward as the surplus of consumed over
/// created value, demands every input be present, and derives one fresh
/// identifier per output.
pub proof fn lemma_accepted_facts(tx: TransactionV, m: Map<Seq<u8>, UtxoV>, reward: Value)
    requires
        accepted(tx, m, reward),
    ensures
        tx.input.len() > 0,
        tx.output.len() > 0,
        !has_duplicate_refs(tx.input),
        !has_duplicate_outputs(tx.output),
        forall|k: int| 0 <= k < tx.input.len() ==> m.dom().contains(#[trigger] tx.input[k].utxo_ref),
        forall|k: int|
            0 <= k < tx.output.len() ==> !m.dom().contains(#[trigger] output_id(tx, k as u64)),
        forall|k: int| 0 <= k < tx.output.len() ==> (#[trigger] tx.output[k]).value > 0,
        input_sum(tx, m, 0) <= u128::MAX,
        output_sum(tx, 0) <= input_sum(tx, m, 0),
        reward == input_sum(tx, m, 0) - output_sum(tx, 0),
{
    let r_in = scan_inputs(tx, m, 0, 0, Seq::empty());
    let r_out = scan_outputs(tx, m, 0, 0, Seq::empty());
    let (total_input, missing) = r_in->Ok_0;
    let (total_output, provides) = r_out->Ok_0;
    lemma_scan_inputs_complete(tx, m, 0, 0, Seq::empty(), total_input, missing);
    lemma_scan_outputs_complete(tx, m, 0, 0, Seq::empty(), total_output, provides);
}

/// A successful input walk keeps every reference gathered so far.
pub(crate) proof fn lemma_scan_inputs_monotone(
    tx: TransactionV,
    m: Map<Seq<u8>, UtxoV>,
    i: int,
    t: Value,
    ms: Seq<Seq<u8>>,
    total: Value,
    missing: Seq<Seq<u8>>,
)
    requires
        0 <= i <= tx.input.len(),
        scan_inputs(tx, m, i, t, ms) == Ok::<(Value, Seq<Seq<u8>>), RejectionReason>(
            (total, missing),
        ),
    ensures
        forall|e: Seq<u8>| ms.contains(e) ==> missing.contains(e),
    decreases tx.input.len() - i,
{
    if i < tx.input.len() {
        let inp = tx.input[i];
        if m.dom().contains(inp.utxo_ref) {
            let u = m[inp.utxo_ref];
            lemma_scan_inputs_monotone(tx, m, i + 1, (t + u.value) as Value, ms, total, missing);
        } else {
            lemma_scan_inputs_monotone(tx, m, i + 1, t, ms.push(inp.utxo_ref), total, missing);
            assert forall|e: Seq<u8>| ms.contains(e) implies missing.contains(e) by {
                let w = choose|w: int| 0 <= w < ms.len() && ms[w] == e;
                assert(ms.push(inp.utxo_ref)[w] == e);
                assert(ms.push(inp.utxo_ref).contains(e));
            }
        }
    }
}

/// A successful input walk records every reference that is absent from
/// the set.
pub(crate) proof fn lemma_scan_inputs_missing(
    tx: TransactionV,
    m: Map<Seq<u8>, UtxoV>,
    i: int,
    t: Value,
    ms: Seq<Seq<u8>>,
    total: Value,
    missing: Seq<Seq<u8>>,
    a: int,
)
    requires
        0 <= i <= a < tx.input.len(),
        !m.dom().contains(tx.input[a].utxo_ref),
        scan_inputs(tx, m, i, t, ms) == Ok::<(Value, Seq<Seq<u8>>), RejectionReason>(
            (total, missing),
        ),
    ensures
        missing.contains(tx.input[a].utxo_ref),
    decreases tx.input.len() - i,
{
    let inp = tx.input[i];
    if m.dom().contains(inp.utxo_ref) {
        let u = m[inp.utxo_ref];
        lemma_scan_inputs_missing(tx, m, i + 1, (t + u.value) as Value, ms, total, missing, a);
    } else {
        if i == a {
            lemma_scan_inputs_monotone(tx, m, i + 1, t, ms.push(inp.utxo_ref), total, missing);
            assert(ms.push(inp.utxo_ref)[ms.len() as int] == inp.utxo_ref);
            assert(ms.push(inp.utxo_ref).contains(inp.utxo_ref));
        } else {
            lemma_scan_inputs_missing(tx, m, i + 1, t, ms.push(inp.utxo_ref), total, missing, a);
        }
    }
}

/// The value the outputs create is never negative.
pub(crate) proof fn lemma_output_sum_nonneg(tx: TransactionV, j: int)
    ensures
        output_sum(tx, j) >= 0,
    decreases tx.output.len() - j,
{
    if 0 <= j < tx.output.len() {
        lemma_output_sum_nonneg(tx, j + 1);
    }
}

/// An output walk succeeds when every remaining output carries value, its
/// identifier is absent from the set, and the whole remaining value fits
/// the running sum.
pub(crate) proof fn lemma_scan_outputs_ok(
    tx: TransactionV,
    m: Map<Seq<u8>, UtxoV>,
    j: int,
    t: Value,
    ids: Seq<Seq<u8>>,
)
    requires
        0 <= j <= tx.output.len(),
        forall|k: int|
            j <= k < tx.output.len() ==> !m.dom().contains(#[trigger] output_id(tx, k as u64)),
        forall|k: int| j <= k < tx.output.len() ==> (#[trigger] tx.output[k]).value > 0,
        t + output_sum(tx, j) <= u128::MAX,
    ensures
        scan_outputs(tx, m, j, t, ids) == Ok::<(Value, Seq<Seq<u8>>), RejectionReason>(
            ((t + output_sum(tx, j)) as Value, ids + provides_from(tx, j)),
        ),
    decreases tx.output.len() - j,
{
    if j >= tx.output.len() {
        assert(ids + provides_from(tx, j) =~= ids);
    } else {
        let o = tx.output[j];
        let id = output_id(tx, j as u64);
        lemma_output_sum_nonneg(tx, j + 1);
        lemma_scan_outputs_ok(tx, m, j + 1, (t + o.value) as Value, ids.push(id));
        assert(ids.push(id) + provides_from(tx, j + 1) =~= ids + (seq![id] + provides_from(
            tx,
            j + 1,
        )));
    }
}

/// Check a candidate transaction against the current set, without touching
/// it: exactly the decision of [`validate_spec`].
pub fn validate(tx: &Transaction, utxo_set: &UtxoSet) -> (r: Result<Admission, RejectionReason>)
    requires
        utxo_set.wf(),
        encodable(tx@),
    ensures
        result_view(r) == validate_spec(tx@, utxo_set@),
{
    let ghost txv = tx@;
    let ghost m = utxo_set@;
    let in_len = tx.input.len();
    let out_len = tx.output.len();
    proof {
        assert(txv.input.len() == in_len);
        assert(txv.output.len() == out_len);
    }
    if in_len == 0 {
        return Err(RejectionReason::NoInputs);
    }
    if out_len == 0 {
        return Err(RejectionReason::NoOutputs);
    }
    // no two inputs may reference the same output
    let mut i: usize = 0;
    while i < in_len
        invariant
            in_len == tx.input.len(),
            txv == tx@,
            txv.output.len() > 0,
            i <= in_len,
            forall|a: int, b: int|
                0 <= a < b < i ==> txv.input[a].utxo_ref != txv.input[b].utxo_ref,
        decreases in_len - i,
    {
        let mut k: usize = 0;
        while k < i
            invariant
                in_len == tx.input.len(),
                txv == tx@,
                txv.output.len() > 0,
                k <= i < in_len,
                forall|a: int| 0 <= a < k ==> txv.input[a].utxo_ref != txv.input[i as int].utxo_ref,
            decreases i - k,
        {
            if tx.input[k].utxo_ref.eq_bytes(&tx.input[i].utxo_ref) {
                proof {
                    assert(txv.input[k as int].utxo_ref == txv.input[i as int].utxo_ref);
                    assert(has_duplicate_refs(txv.input));
                }
                return Err(RejectionReason::DuplicateInput);
            }
            k = k + 1;
        }
        i = i + 1;
    }
    proof {
        assert(!has_duplicate_refs(txv.input));
    }
    // no two outputs may be equal as values
    let mut j: usize = 0;
    while j < out_len
        invariant
            out_len == tx.output.len(),
            txv == tx@,
            txv.input.len() > 0,
            !has_duplicate_refs(txv.input),
            j <= out_len,
            forall|a: int, b: int| 0 <= a < b < j ==> txv.output[a] != txv.output[b],
        decreases out_len - j,
    {
        let mut k: usize = 0;
        while k < j
            invariant
                out_len == tx.output.len(),
                txv == tx@,
                txv.input.len() > 0,
                !has_duplicate_refs(txv.input),
                k <= j < out_len,
                forall|a: int| 0 <= a < k ==> txv.output[a] != txv.output[j as int],
            decreases j - k,
        {
            if tx.output[k].eq_value(&tx.output[j]) {
                proof {
                    assert(txv.output[k as int] == txv.output[j as int]);
                    assert(has_duplicate_outputs(txv.output));
                }
                return Err(RejectionReason::DuplicateOutput);
            }
            k = k + 1;
        }
        j = j + 1;
    }
    proof {
        assert(!has_duplicate_outputs(txv.output));
    }
    let simple_tx = get_simple_transaction(tx);
    let enc = encode_transaction(tx);
    // walk the inputs: sum known values, gather missing references
    let mut total_input: u128 = 0;
    let mut missing: Vec<H256> = Vec::new();
    proof {
        assert(missing@.map_values(|h: H256| h@) =~= Seq::<Seq<u8>>::empty());
    }
    let mut idx: usize = 0;
    while idx < in_len
        invariant
            utxo_set.wf(),
            m == utxo_set@,
            in_len == tx.input.len(),
            txv == tx@,
            encodable(txv),
            simple_tx@ == simple_tx_bytes(txv),
            idx <= in_len,
            txv.input.len() > 0,
            txv.output.len() > 0,
            !has_duplicate_refs(txv.input),
            !has_duplicate_outputs(txv.output),
            scan_inputs(txv, m, 0, 0, Seq::empty()) == scan_inputs(
                txv,
                m,
                idx as int,
                total_input,
                missing@.map_values(|h: H256| h@),
            ),
        decreases in_len - idx,
    {
        let ghost missing_v = missing@.map_values(|h: H256| h@);
        let inp = &tx.input[idx];
        proof {
            assert(txv.input[idx as int] == tx.input@[idx as int]@);
        }
        match utxo_set.get(&inp.utxo_ref) {
            Some(found) => {
                if !sr25519_verify(&inp.scriptSig, &simple_tx, &found.pubScript) {
                    proof {
                        assert(scan_inputs(txv, m, idx as int, total_input, missing_v) == Err::<
                            (Value, Seq<Seq<u8>>),
                            RejectionReason,
                        >(RejectionReason::SignatureInvalid));
                    }
                    return Err(RejectionReason::SignatureInvalid);
                }
                match total_input.checked_add(found.value) {
                    Some(t) => {
                        proof {
                            assert(scan_inputs(txv, m, idx as int, total_input, missing_v)
                                == scan_inputs(txv, m, idx + 1, t, missing_v));
                        }
                        total_input = t;
                    },
                    None => {
                        proof {
                            assert(scan_inputs(txv, m, idx as int, total_input, missing_v) == Err::<
                                (Value, Seq<Seq<u8>>),
                                RejectionReason,
                            >(RejectionReason::InputValueOverflow));
                        }
                        return Err(RejectionReason::InputValueOverflow);
                    },
                }
            },
            None => {
                missing.push(inp.utxo_ref);
                proof {
                    assert(missing@.map_values(|h: H256| h@) =~= missing_v.push(
                        txv.input[idx as int].utxo_ref,
                    ));
                    assert(scan_inputs(txv, m, idx as int, total_input, missing_v) == scan_inputs(
                        txv,
                        m,
                        idx + 1,
                        total_input,
                        missing_v.push(txv.input[idx as int].utxo_ref),
                    ));
                }
            },
        }
        idx = idx + 1;
    }
    proof {
        assert(scan_inputs(txv, m, 0, 0, Seq::empty()) == Ok::<_, RejectionReason>(
            (total_input, missing@.map_values(|h: H256| h@)),
        ));
    }
    // walk the outputs: demand value, derive identifiers, demand freshness
    let mut total_output: u128 = 0;
    let mut provides: Vec<H256> = Vec::new();
    proof {
        assert(provides@.map_values(|h: H256| h@) =~= Seq::<Seq<u8>>::empty());
    }
    let mut odx: usize = 0;
    while odx < out_len
        invariant
            utxo_set.wf(),
            m == utxo_set@,
            out_len == tx.output.len(),
            txv == tx@,
            encodable(txv),
            enc@ == crate::codec::tx_bytes(txv),
            odx <= out_len,
            txv.input.len() > 0,
            txv.output.len() > 0,
            !has_duplicate_refs(txv.input),
            !has_duplicate_outputs(txv.output),
            scan_inputs(txv, m, 0, 0, Seq::empty()) == Ok::<_, RejectionReason>(
                (total_input, missing@.map_values(|h: H256| h@)),
            ),
            scan_outputs(txv, m, 0, 0, Seq::empty()) == scan_outputs(
                txv,
                m,
                odx as int,
                total_output,
                provides@.map_values(|h: H256| h@),
            ),
        decreases out_len - odx,
    {
        let ghost provides_v = provides@.map_values(|h: H256| h@);
        let o = &tx.output[odx];
        proof {
            assert(txv.output[odx as int] == tx.output@[odx as int]@);
        }
        if o.value == 0 {
            proof {
                assert(scan_outputs(txv, m, odx as int, total_output, provides_v) == Err::<
                    (Value, Seq<Seq<u8>>),
                    RejectionReason,
                >(RejectionReason::ZeroValueOutput));
            }
            return Err(RejectionReason::ZeroValueOutput);
        }
        let id = transaction_output_id(&enc, odx as u64);
        proof {
            assert(id@ == output_id(txv, odx as u64));
        }
        if utxo_set.contains(&id) {
            proof {
                assert(scan_outputs(txv, m, odx as int, total_output, provides_v) == Err::<
                    (Value, Seq<Seq<u8>>),
                    RejectionReason,
                >(RejectionReason::OutputCollision));
            }
            return Err(RejectionReason::OutputCollision);
        }
        match total_output.checked_add(o.value) {
            Some(t) => {
                provides.push(id);
                proof {
                    assert(provides@.map_values(|h: H256| h@) =~= provides_v.push(
                        output_id(txv, odx as u64),
                    ));
                    assert(scan_outputs(txv, m, odx as int, total_output, provides_v)
                        == scan_outputs(txv, m, odx + 1, t, provides_v.push(
                        output_id(txv, odx as u64),
                    )));
                }
                total_output = t;
            },
            None => {
                proof {
                    assert(scan_outputs(txv, m, odx as int, total_output, provides_v) == Err::<
                        (Value, Seq<Seq<u8>>),
                        RejectionReason,
                    >(RejectionReason::OutputValueOverflow));
                }
                return Err(RejectionReason::OutputValueOverflow);
            },
        }
        odx = odx + 1;
    }
    proof {
        assert(scan_outputs(txv, m, 0, 0, Seq::empty()) == Ok::<_, RejectionReason>(
            (total_output, provides@.map_values(|h: H256| h@)),
        ));
    }
    // value may be judged only once every input is known
    if missing.is_empty() {
        if total_input < total_output {
            return Err(RejectionReason::OutputExceedsInput);
        }
        let admission = Admission { reward: total_input - total_output, missing_inputs: missing, provides };
        proof {
            assert(admission@.missing_inputs =~= Seq::<Seq<u8>>::empty());
            assert(admission@ =~= validate_spec(txv, m)->Ok_0);
        }
        Ok(admission)
    } else {
        let admission = Admission { reward: 0, missing_inputs: missing, provides };
        proof {
            assert(admission@.missing_inputs.len() > 0);
            assert(admission@ =~= validate_spec(txv, m)->Ok_0);
        }
        Ok(admission)
    }
}

} // verus!
