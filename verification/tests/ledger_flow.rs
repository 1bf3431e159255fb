use sp_core::Pair as PairTrait;
use utxo_ledger::codec::{encode_transaction, get_simple_transaction};
use utxo_ledger::crypto::{genesis_utxo_id, reward_utxo_id, transaction_output_id};
use utxo_ledger::ledger::Ledger;
use utxo_ledger::types::{H256, H512, Transaction, TxInput, Utxo};
use utxo_ledger::validate::RejectionReason;

fn flow_pair(seed: u8) -> sp_core::sr25519::Pair {
    sp_core::sr25519::Pair::from_seed_slice(&[seed; 32]).unwrap()
}

fn flow_owner(pair: &sp_core::sr25519::Pair) -> H256 {
    H256 { bytes: pair.public().to_raw() }
}

/// Build a transaction spending `refs` into `outputs`, every input signed
/// by `signer` over the blanked canonical bytes.
fn flow_signed_tx(signer: &sp_core::sr25519::Pair, refs: Vec<H256>, outputs: Vec<Utxo>) -> Transaction {
    let mut tx = Transaction {
        output: outputs,
        input: refs
            .into_iter()
            .map(|r| TxInput { utxo_ref: r, scriptSig: H512 { bytes: [0; 64] } })
            .collect(),
    };
    let message = get_simple_transaction(&tx);
    let sig = signer.sign(&message).to_raw();
    for input in tx.input.iter_mut() {
        input.scriptSig = H512 { bytes: sig };
    }
    tx
}

#[test]
fn spend_moves_value_and_accrues_reward() {
    let alice = flow_pair(1);
    let bob = flow_pair(2);
    let genesis = Utxo { value: 100, pubScript: flow_owner(&alice) };
    let h0 = genesis_utxo_id(&genesis);
    let mut ledger = Ledger::from_genesis(&vec![genesis]);
    assert!(ledger.utxo_set().contains(&h0));

    let tx = flow_signed_tx(
        &alice,
        vec![h0],
        vec![Utxo { value: 60, pubScript: flow_owner(&bob) }],
    );
    let admission = ledger.validate_transaction(&tx).unwrap();
    assert_eq!(admission.reward, 40);
    assert!(admission.missing_inputs.is_empty());

    ledger.spend(&tx).unwrap();
    assert_eq!(ledger.reward_total(), 40);
    assert_eq!(ledger.utxo_set().len(), 1);
    assert!(!ledger.utxo_set().contains(&h0));
    let new_id = transaction_output_id(&encode_transaction(&tx), 0);
    let created = ledger.utxo_set().get(&new_id).unwrap();
    assert_eq!(created.value, 60);
    assert_eq!(created.pubScript, flow_owner(&bob));
}

#[test]
fn rejects_outputs_exceeding_inputs() {
    let alice = flow_pair(1);
    let bob = flow_pair(2);
    let genesis = Utxo { value: 100, pubScript: flow_owner(&alice) };
    let h0 = genesis_utxo_id(&genesis);
    let mut ledger = Ledger::from_genesis(&vec![genesis]);

    let tx = flow_signed_tx(
        &alice,
        vec![h0],
        vec![Utxo { value: 150, pubScript: flow_owner(&bob) }],
    );
    let r = ledger.validate_transaction(&tx);
    assert!(matches!(r, Err(RejectionReason::OutputExceedsInput)));
    let r2 = ledger.spend(&tx);
    assert!(matches!(r2, Err(RejectionReason::OutputExceedsInput)));
    assert!(ledger.utxo_set().contains(&h0));
    assert_eq!(ledger.reward_total(), 0);
}

#[test]
fn rejects_wrong_signer() {
    let alice = flow_pair(1);
    let mallory = flow_pair(9);
    let genesis = Utxo { value: 100, pubScript: flow_owner(&alice) };
    let h0 = genesis_utxo_id(&genesis);
    let ledger = Ledger::from_genesis(&vec![genesis]);

    let tx = flow_signed_tx(
        &mallory,
        vec![h0],
        vec![Utxo { value: 60, pubScript: flow_owner(&mallory) }],
    );
    let r = ledger.validate_transaction(&tx);
    assert!(matches!(r, Err(RejectionReason::SignatureInvalid)));
}

#[test]
fn created_output_spendable_only_by_its_owner() {
    let alice = flow_pair(1);
    let bob = flow_pair(2);
    let carol = flow_pair(3);
    let genesis = Utxo { value: 100, pubScript: flow_owner(&alice) };
    let h0 = genesis_utxo_id(&genesis);
    let mut ledger = Ledger::from_genesis(&vec![genesis]);

    let tx = flow_signed_tx(
        &alice,
        vec![h0],
        vec![Utxo { value: 60, pubScript: flow_owner(&bob) }],
    );
    ledger.spend(&tx).unwrap();
    let new_id = transaction_output_id(&encode_transaction(&tx), 0);

    // the wrong key cannot spend the created output
    let theft = flow_signed_tx(
        &carol,
        vec![new_id],
        vec![Utxo { value: 60, pubScript: flow_owner(&carol) }],
    );
    assert!(matches!(
        ledger.validate_transaction(&theft),
        Err(RejectionReason::SignatureInvalid)
    ));

    // the owner can
    let legit = flow_signed_tx(
        &bob,
        vec![new_id],
        vec![Utxo { value: 45, pubScript: flow_owner(&carol) }],
    );
    let admission = ledger.validate_transaction(&legit).unwrap();
    assert!(admission.missing_inputs.is_empty());
    assert_eq!(admission.reward, 15);
    ledger.spend(&legit).unwrap();
    assert_eq!(ledger.reward_total(), 40 + 15);
}

#[test]
fn spent_output_cannot_be_spent_again() {
    let alice = flow_pair(1);
    let bob = flow_pair(2);
    let genesis = Utxo { value: 100, pubScript: flow_owner(&alice) };
    let h0 = genesis_utxo_id(&genesis);
    let mut ledger = Ledger::from_genesis(&vec![genesis]);

    let t1 = flow_signed_tx(
        &alice,
        vec![h0],
        vec![Utxo { value: 60, pubScript: flow_owner(&bob) }],
    );
    ledger.spend(&t1).unwrap();

    // a second transaction referencing the consumed output is only pending
    // on it, never applied
    let t2 = flow_signed_tx(
        &alice,
        vec![h0],
        vec![Utxo { value: 10, pubScript: flow_owner(&alice) }],
    );
    let admission = ledger.validate_transaction(&t2).unwrap();
    assert_eq!(admission.missing_inputs, vec![h0]);
    assert!(matches!(ledger.spend(&t2), Err(RejectionReason::MissingInputs)));
    assert_eq!(ledger.utxo_set().len(), 1);
    assert_eq!(ledger.reward_total(), 40);
}

#[test]
fn value_is_conserved_across_spends() {
    let alice = flow_pair(1);
    let bob = flow_pair(2);
    let genesis = vec![
        Utxo { value: 70, pubScript: flow_owner(&alice) },
        Utxo { value: 30, pubScript: flow_owner(&bob) },
    ];
    let ha = genesis_utxo_id(&genesis[0]);
    let hb = genesis_utxo_id(&genesis[1]);
    let mut ledger = Ledger::from_genesis(&genesis);

    let t1 = flow_signed_tx(
        &alice,
        vec![ha],
        vec![Utxo { value: 50, pubScript: flow_owner(&bob) }],
    );
    ledger.spend(&t1).unwrap();
    let t2 = flow_signed_tx(
        &bob,
        vec![hb],
        vec![Utxo { value: 29, pubScript: flow_owner(&alice) }],
    );
    ledger.spend(&t2).unwrap();

    // 100 at genesis: 50 + 29 unspent, 20 + 1 accrued as reward
    assert_eq!(ledger.reward_total(), 21);
    let set = ledger.utxo_set();
    let id1 = transaction_output_id(&encode_transaction(&t1), 0);
    let id2 = transaction_output_id(&encode_transaction(&t2), 0);
    assert_eq!(set.get(&id1).unwrap().value + set.get(&id2).unwrap().value, 79);
    assert_eq!(set.len(), 2);
}

#[test]
fn rejects_input_value_overflow() {
    let alice = flow_pair(1);
    let genesis = vec![
        Utxo { value: u128::MAX, pubScript: flow_owner(&alice) },
        Utxo { value: 1, pubScript: flow_owner(&alice) },
    ];
    let ha = genesis_utxo_id(&genesis[0]);
    let hb = genesis_utxo_id(&genesis[1]);
    let ledger = Ledger::from_genesis(&genesis);

    let tx = flow_signed_tx(
        &alice,
        vec![ha, hb],
        vec![Utxo { value: 1, pubScript: flow_owner(&alice) }],
    );
    let r = ledger.validate_transaction(&tx);
    assert!(matches!(r, Err(RejectionReason::InputValueOverflow)));
}

#[test]
fn accrued_reward_cannot_overflow_silently() {
    let alice = flow_pair(1);
    let carol = flow_pair(3);
    let genesis = vec![
        Utxo { value: u128::MAX, pubScript: flow_owner(&alice) },
        Utxo { value: u128::MAX, pubScript: flow_owner(&carol) },
    ];
    let ha = genesis_utxo_id(&genesis[0]);
    let hc = genesis_utxo_id(&genesis[1]);
    let mut ledger = Ledger::from_genesis(&genesis);

    let t1 = flow_signed_tx(
        &alice,
        vec![ha],
        vec![Utxo { value: 1, pubScript: flow_owner(&alice) }],
    );
    ledger.spend(&t1).unwrap();
    assert_eq!(ledger.reward_total(), u128::MAX - 1);

    let t2 = flow_signed_tx(
        &carol,
        vec![hc],
        vec![Utxo { value: 1, pubScript: flow_owner(&carol) }],
    );
    assert!(matches!(ledger.spend(&t2), Err(RejectionReason::RewardOverflow)));
    // nothing was applied
    assert!(ledger.utxo_set().contains(&hc));
    assert_eq!(ledger.reward_total(), u128::MAX - 1);
}

fn flow_pool_of_ten() -> Ledger {
    let alice = flow_pair(1);
    let bob = flow_pair(2);
    let genesis = Utxo { value: 100, pubScript: flow_owner(&alice) };
    let h0 = genesis_utxo_id(&genesis);
    let mut ledger = Ledger::from_genesis(&vec![genesis]);
    let tx = flow_signed_tx(
        &alice,
        vec![h0],
        vec![Utxo { value: 90, pubScript: flow_owner(&bob) }],
    );
    ledger.spend(&tx).unwrap();
    assert_eq!(ledger.reward_total(), 10);
    ledger
}

#[test]
fn reward_distribution_floors_and_retains_remainder() {
    let mut ledger = flow_pool_of_ten();
    let x = H256 { bytes: [0x0A; 32] };
    let y = H256 { bytes: [0x0B; 32] };
    let z = H256 { bytes: [0x0C; 32] };
    let minted = ledger.dispense_reward(&vec![x, y, z], 0).unwrap();
    // share = floor(10 / 3) = 3, remainder 1 stays in the pool
    assert_eq!(minted.len(), 3);
    assert_eq!(minted[0], reward_utxo_id(&Utxo { value: 3, pubScript: x }, 0));
    assert_eq!(ledger.reward_total(), 1);
    assert_eq!(ledger.utxo_set().len(), 4);
    for owner in [x, y, z] {
        let minted = Utxo { value: 3, pubScript: owner };
        let id = reward_utxo_id(&minted, 0);
        assert_eq!(ledger.utxo_set().get(&id).unwrap().value, 3);
    }
}

#[test]
fn zero_share_skips_distribution() {
    let mut ledger = flow_pool_of_ten();
    let recipients: Vec<H256> = (0..11u8).map(|i| H256 { bytes: [i; 32] }).collect();
    assert!(ledger.dispense_reward(&recipients, 0).unwrap().is_empty());
    assert_eq!(ledger.reward_total(), 10);
    assert_eq!(ledger.utxo_set().len(), 1);
}

#[test]
fn empty_recipients_with_pool_is_refused() {
    let mut ledger = flow_pool_of_ten();
    let r = ledger.dispense_reward(&vec![], 0);
    assert!(matches!(r, Err(RejectionReason::NoRecipients)));
    assert_eq!(ledger.reward_total(), 10);
}

#[test]
fn empty_recipients_with_empty_pool_is_a_no_op() {
    let mut ledger = Ledger::new();
    assert!(ledger.dispense_reward(&vec![], 0).unwrap().is_empty());
    assert_eq!(ledger.reward_total(), 0);
}

#[test]
fn duplicate_recipients_in_a_round_are_refused() {
    let mut ledger = flow_pool_of_ten();
    let x = H256 { bytes: [0x0A; 32] };
    let r = ledger.dispense_reward(&vec![x, x], 0);
    assert!(matches!(r, Err(RejectionReason::DuplicateOutputId)));
    assert_eq!(ledger.reward_total(), 10);
    assert_eq!(ledger.utxo_set().len(), 1);
}

#[test]
fn same_round_shares_for_distinct_owners_coexist() {
    let mut ledger = flow_pool_of_ten();
    let x = H256 { bytes: [0x0A; 32] };
    let y = H256 { bytes: [0x0B; 32] };
    ledger.dispense_reward(&vec![x, y], 7).unwrap();
    assert_eq!(ledger.reward_total(), 0);
    assert_eq!(ledger.utxo_set().len(), 3);
    assert!(ledger
        .utxo_set()
        .contains(&reward_utxo_id(&Utxo { value: 5, pubScript: x }, 7)));
    assert!(ledger
        .utxo_set()
        .contains(&reward_utxo_id(&Utxo { value: 5, pubScript: y }, 7)));
}
