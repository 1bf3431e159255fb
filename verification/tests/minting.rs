use utxo_ledger::minting::{BitcoinHalving, Issuance, HALVING_INTERVAL};

#[test]
fn halving_schedule_amounts() {
    assert_eq!(<BitcoinHalving as Issuance<u32, u128>>::issuance(0), 50);
    assert_eq!(<BitcoinHalving as Issuance<u32, u128>>::issuance(HALVING_INTERVAL - 1), 50);
    assert_eq!(<BitcoinHalving as Issuance<u32, u128>>::issuance(HALVING_INTERVAL), 25);
    assert_eq!(<BitcoinHalving as Issuance<u32, u128>>::issuance(2 * HALVING_INTERVAL), 12);
    assert_eq!(<BitcoinHalving as Issuance<u32, u128>>::issuance(5 * HALVING_INTERVAL), 1);
    assert_eq!(<BitcoinHalving as Issuance<u32, u128>>::issuance(6 * HALVING_INTERVAL), 0);
    assert_eq!(<BitcoinHalving as Issuance<u32, u128>>::issuance(u32::MAX), 0);
}

#[test]
fn unit_source_issues_nothing() {
    assert_eq!(<() as Issuance<u32, u128>>::issuance(123), 0);
    assert_eq!(<() as Issuance<u64, u128>>::issuance(456), 0);
}
