use btclib::crypto::{PrivateKey, PublicKey};
use btclib::types::TransactionOutput;
use btclib::wallet::{
    create_transaction_with, find_private_key, get_balance, payment_fits, LoadedKey, WalletError,
};

fn loaded() -> LoadedKey {
    let private = PrivateKey::new_key();
    LoadedKey { public: private.public_key(), private }
}

fn out(value: u64, id: u128, to: PublicKey) -> TransactionOutput {
    TransactionOutput::new(value, id, to)
}

#[test]
fn finds_the_private_half_of_a_known_key() {
    let a = loaded();
    let b = loaded();
    let keys = vec![a, b];
    let found = find_private_key(&keys, &b.public).unwrap();
    assert!(found.public_key().same(&b.public));
    let stranger = PrivateKey::new_key().public_key();
    assert_eq!(find_private_key(&keys, &stranger).err(), Some(WalletError::KeyNotFound));
}

#[test]
fn balance_counts_every_output() {
    let a = loaded();
    let utxos = vec![(a.public, vec![(false, out(5, 1, a.public)), (true, out(7, 2, a.public))])];
    assert_eq!(get_balance(&utxos), 12);
    assert_eq!(get_balance(&vec![]), 0);
}

#[test]
fn payment_skips_spoken_for_outputs_and_returns_change() {
    let a = loaded();
    let bob = PrivateKey::new_key().public_key();
    let utxos = vec![(
        a.public,
        vec![(true, out(100, 1, a.public)), (false, out(30, 2, a.public)), (false, out(50, 3, a.public)), (false, out(70, 4, a.public))],
    )];
    assert!(payment_fits(&utxos, 60, 5));
    let tx = create_transaction_with(&vec![a], &utxos, &bob, 60, 5, 10, 11).unwrap();
    assert_eq!(tx.inputs.len(), 2);
    assert!(tx.inputs[0].prev_transaction_output_hash.0.same(&out(30, 2, a.public).hash().0));
    assert!(tx.inputs[1].prev_transaction_output_hash.0.same(&out(50, 3, a.public).hash().0));
    assert_eq!(tx.outputs.len(), 2);
    assert_eq!(tx.outputs[0].value, 60);
    assert!(tx.outputs[0].pubkey.same(&bob));
    assert_eq!(tx.outputs[0].unique_id, 10);
    assert_eq!(tx.outputs[1].value, 15);
    assert!(tx.outputs[1].pubkey.same(&a.public));
    assert_eq!(tx.outputs[1].unique_id, 11);
    let h = tx.inputs[0].prev_transaction_output_hash;
    assert!(tx.inputs[0].signature.verify(&h.0, &a.public));
}

#[test]
fn exact_payment_has_no_change() {
    let a = loaded();
    let bob = PrivateKey::new_key().public_key();
    let utxos = vec![(a.public, vec![(false, out(65, 2, a.public))])];
    let tx = create_transaction_with(&vec![a], &utxos, &bob, 60, 5, 10, 11).unwrap();
    assert_eq!(tx.outputs.len(), 1);
}

#[test]
fn insufficient_funds_and_missing_keys() {
    let a = loaded();
    let bob = PrivateKey::new_key().public_key();
    let utxos = vec![(a.public, vec![(false, out(10, 2, a.public)), (true, out(100, 3, a.public))])];
    assert_eq!(
        create_transaction_with(&vec![a], &utxos, &bob, 60, 5, 10, 11).err(),
        Some(WalletError::InsufficientFunds)
    );
    assert_eq!(
        create_transaction_with(&vec![], &utxos, &bob, 60, 5, 10, 11).err(),
        Some(WalletError::KeyNotFound)
    );
}

#[test]
fn payment_fits_detects_overflow() {
    let a = loaded();
    let utxos = vec![(a.public, vec![(false, out(u64::MAX - 10, 2, a.public)), (false, out(20, 3, a.public))])];
    assert!(!payment_fits(&utxos, u64::MAX - 1, 0));
    assert!(!payment_fits(&utxos, u64::MAX, 1));
    assert!(payment_fits(&utxos, 5, 0));
}

#[test]
fn payment_outputs_and_fee_add_up_to_the_inputs() {
    let a = loaded();
    let bob = PrivateKey::new_key().public_key();
    let utxos = vec![(a.public, vec![(false, out(40, 2, a.public)), (false, out(40, 3, a.public))])];
    let tx = create_transaction_with(&vec![a], &utxos, &bob, 50, 7, 10, 11).unwrap();
    let paid: u64 = 80;
    let outs: u64 = tx.outputs.iter().map(|o| o.value).sum();
    assert_eq!(outs + 7, paid);
}
