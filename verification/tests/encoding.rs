use utxo_ledger::codec::{encode_transaction, get_simple_transaction};
use utxo_ledger::crypto::{genesis_utxo_id, reward_utxo_id, transaction_output_id};
use utxo_ledger::types::{H256, H512, Transaction, TxInput, Utxo};

fn enc_tx(outputs: Vec<Utxo>, inputs: Vec<TxInput>) -> Transaction {
    Transaction { output: outputs, input: inputs }
}

#[test]
fn canonical_bytes_layout() {
    let tx = enc_tx(
        vec![Utxo { value: 1, pubScript: H256 { bytes: [0x11; 32] } }],
        vec![TxInput {
            utxo_ref: H256 { bytes: [0x22; 32] },
            scriptSig: H512 { bytes: [0x33; 64] },
        }],
    );
    let enc = encode_transaction(&tx);
    let mut expected: Vec<u8> = Vec::new();
    expected.push(0x04); // one output, compact-encoded
    expected.extend_from_slice(&1u128.to_le_bytes());
    expected.extend_from_slice(&[0x11; 32]);
    expected.push(0x04); // one input, compact-encoded
    expected.extend_from_slice(&[0x22; 32]);
    expected.extend_from_slice(&[0x33; 64]);
    assert_eq!(enc, expected);
}

#[test]
fn canonical_bytes_two_byte_length() {
    // 64 outputs force the two-byte compact mode for the length prefix
    let outputs: Vec<Utxo> = (0..64u8)
        .map(|i| Utxo { value: i as u128 + 1, pubScript: H256 { bytes: [i; 32] } })
        .collect();
    let tx = enc_tx(
        outputs,
        vec![TxInput {
            utxo_ref: H256 { bytes: [0xAA; 32] },
            scriptSig: H512 { bytes: [0xBB; 64] },
        }],
    );
    let enc = encode_transaction(&tx);
    // 64 << 2 | 0b01 = 0x0101, little-endian
    assert_eq!(&enc[0..2], &[0x01, 0x01]);
    assert_eq!(enc.len(), 2 + 64 * 48 + 1 + 96);
}

#[test]
fn simple_transaction_blanks_signatures() {
    let tx = enc_tx(
        vec![Utxo { value: 9, pubScript: H256 { bytes: [0x11; 32] } }],
        vec![TxInput {
            utxo_ref: H256 { bytes: [0x22; 32] },
            scriptSig: H512 { bytes: [0x33; 64] },
        }],
    );
    let blanked = enc_tx(
        vec![Utxo { value: 9, pubScript: H256 { bytes: [0x11; 32] } }],
        vec![TxInput {
            utxo_ref: H256 { bytes: [0x22; 32] },
            scriptSig: H512 { bytes: [0x00; 64] },
        }],
    );
    let simple = get_simple_transaction(&tx);
    assert_eq!(simple, encode_transaction(&blanked));
    assert_ne!(simple, encode_transaction(&tx));
}

#[test]
fn genesis_id_is_blake2_of_canonical_bytes() {
    let u = Utxo { value: 7, pubScript: H256 { bytes: [0x11; 32] } };
    let mut preimage: Vec<u8> = Vec::new();
    preimage.extend_from_slice(&7u128.to_le_bytes());
    preimage.extend_from_slice(&[0x11; 32]);
    let expected = sp_io::hashing::blake2_256(&preimage);
    assert_eq!(genesis_utxo_id(&u).bytes, expected);
}

#[test]
fn transaction_output_id_hashes_prefixed_bytes_and_index() {
    let enc: Vec<u8> = vec![0xDE, 0xAD, 0xBE, 0xEF];
    let mut preimage: Vec<u8> = Vec::new();
    preimage.push((enc.len() as u8) << 2); // compact length of the byte vector
    preimage.extend_from_slice(&enc);
    preimage.extend_from_slice(&5u64.to_le_bytes());
    let expected = sp_io::hashing::blake2_256(&preimage);
    assert_eq!(transaction_output_id(&enc, 5).bytes, expected);
}

#[test]
fn reward_id_hashes_output_and_round() {
    let u = Utxo { value: 3, pubScript: H256 { bytes: [0x44; 32] } };
    let mut preimage: Vec<u8> = Vec::new();
    preimage.extend_from_slice(&3u128.to_le_bytes());
    preimage.extend_from_slice(&[0x44; 32]);
    preimage.extend_from_slice(&9u64.to_le_bytes());
    let expected = sp_io::hashing::blake2_256(&preimage);
    assert_eq!(reward_utxo_id(&u, 9).bytes, expected);
}

#[test]
fn distinct_content_distinct_identifiers() {
    // identifier derivation ties identity to content and position: across
    // a batch of differing transactions, and across positions within one,
    // no identifier repeats
    let mut seen: Vec<H256> = Vec::new();
    for v in 1..=20u128 {
        let tx = enc_tx(
            vec![
                Utxo { value: v, pubScript: H256 { bytes: [0x01; 32] } },
                Utxo { value: v + 100, pubScript: H256 { bytes: [0x02; 32] } },
            ],
            vec![TxInput {
                utxo_ref: H256 { bytes: [v as u8; 32] },
                scriptSig: H512 { bytes: [0x00; 64] },
            }],
        );
        let enc = encode_transaction(&tx);
        seen.push(transaction_output_id(&enc, 0));
        seen.push(transaction_output_id(&enc, 1));
    }
    for i in 0..seen.len() {
        for j in 0..i {
            assert_ne!(seen[i], seen[j]);
        }
    }
}
