use utxo_ledger::codec::encode_transaction;
use utxo_ledger::crypto::transaction_output_id;
use utxo_ledger::types::{H256, H512, Transaction, TxInput, Utxo};
use utxo_ledger::utxo_set::UtxoSet;
use utxo_ledger::validate::{validate, RejectionReason};

fn val_tx(outputs: Vec<Utxo>, inputs: Vec<TxInput>) -> Transaction {
    Transaction { output: outputs, input: inputs }
}

fn val_input(r: u8) -> TxInput {
    TxInput { utxo_ref: H256 { bytes: [r; 32] }, scriptSig: H512 { bytes: [0x00; 64] } }
}

fn val_output(value: u128, owner: u8) -> Utxo {
    Utxo { value, pubScript: H256 { bytes: [owner; 32] } }
}

#[test]
fn rejects_no_inputs() {
    let set = UtxoSet::new();
    let tx = val_tx(vec![val_output(5, 1)], vec![]);
    assert!(matches!(validate(&tx, &set), Err(RejectionReason::NoInputs)));
}

#[test]
fn rejects_no_outputs() {
    let set = UtxoSet::new();
    let tx = val_tx(vec![], vec![val_input(1)]);
    assert!(matches!(validate(&tx, &set), Err(RejectionReason::NoOutputs)));
}

#[test]
fn rejects_duplicate_input_reference() {
    let set = UtxoSet::new();
    // same referenced output, differing signature blobs: still a duplicate
    let mut second = val_input(7);
    second.scriptSig = H512 { bytes: [0x55; 64] };
    let tx = val_tx(vec![val_output(5, 1)], vec![val_input(7), second]);
    assert!(matches!(validate(&tx, &set), Err(RejectionReason::DuplicateInput)));
}

#[test]
fn rejects_duplicate_output() {
    let set = UtxoSet::new();
    let tx = val_tx(vec![val_output(5, 1), val_output(5, 1)], vec![val_input(7)]);
    assert!(matches!(validate(&tx, &set), Err(RejectionReason::DuplicateOutput)));
}

#[test]
fn rejects_zero_value_output() {
    let set = UtxoSet::new();
    let tx = val_tx(vec![val_output(0, 1)], vec![val_input(7)]);
    assert!(matches!(validate(&tx, &set), Err(RejectionReason::ZeroValueOutput)));
}

#[test]
fn rejects_existing_output_identifier() {
    let tx = val_tx(vec![val_output(5, 1)], vec![val_input(7)]);
    let id = transaction_output_id(&encode_transaction(&tx), 0);
    let mut set = UtxoSet::new();
    set.insert(id, val_output(1, 9));
    assert!(matches!(validate(&tx, &set), Err(RejectionReason::OutputCollision)));
}

#[test]
fn rejects_output_value_overflow() {
    let set = UtxoSet::new();
    let tx = val_tx(vec![val_output(u128::MAX, 1), val_output(1, 2)], vec![val_input(7)]);
    assert!(matches!(validate(&tx, &set), Err(RejectionReason::OutputValueOverflow)));
}

#[test]
fn unknown_inputs_leave_decision_pending() {
    let set = UtxoSet::new();
    let tx = val_tx(vec![val_output(5, 1)], vec![val_input(7)]);
    let admission = validate(&tx, &set).unwrap();
    assert_eq!(admission.missing_inputs.len(), 1);
    assert_eq!(admission.missing_inputs[0], H256 { bytes: [7; 32] });
    assert_eq!(admission.reward, 0);
    assert_eq!(admission.provides.len(), 1);
}

#[test]
fn rejection_is_idempotent() {
    let set = UtxoSet::new();
    let tx = val_tx(vec![val_output(5, 1), val_output(5, 1)], vec![val_input(7)]);
    let first = validate(&tx, &set).unwrap_err();
    let second = validate(&tx, &set).unwrap_err();
    assert_eq!(first, second);
}

#[test]
fn utxo_set_point_operations() {
    let mut set = UtxoSet::new();
    let id_a = H256 { bytes: [1; 32] };
    let id_b = H256 { bytes: [2; 32] };
    assert_eq!(set.len(), 0);
    assert!(!set.contains(&id_a));
    set.insert(id_a, val_output(10, 1));
    set.insert(id_b, val_output(20, 2));
    assert_eq!(set.len(), 2);
    assert!(set.contains(&id_a));
    assert_eq!(set.get(&id_a).unwrap().value, 10);
    assert_eq!(set.get(&id_b).unwrap().value, 20);
    set.remove(&id_a);
    assert_eq!(set.len(), 1);
    assert!(!set.contains(&id_a));
    assert!(set.contains(&id_b));
}
