use btclib::crypto::{PrivateKey, PublicKey, Signature};
use btclib::error::BtcError;
use btclib::sha256::BlockHash;
use btclib::time::Timestamp;
use btclib::types::{Block, BlockHeader, Blockchain, Transaction, TransactionInput, TransactionOutput};
use btclib::utils::lookup::LookupTable;
use btclib::utils::MerkleRoot;

const COIN: u64 = 100_000_000;

fn at(secs: i64) -> Timestamp {
    Timestamp { secs, nanos: 0 }
}

fn coinbase(value: u64, id: u128, to: PublicKey) -> Transaction {
    Transaction::new(vec![], vec![TransactionOutput::new(value, id, to)])
}

fn block_on(prev: BlockHash, time: Timestamp, txs: Vec<Transaction>) -> Block {
    let root = MerkleRoot::calculate(&txs);
    Block::new(BlockHeader::new(time, 0, prev, root, btclib::min_target()), txs)
}

/// A first block carrying the transactions, mined against the minimum target.
fn genesis_with(time: Timestamp, txs: Vec<Transaction>) -> Block {
    let mut b = block_on(BlockHash::zero(), time, txs);
    assert!(b.header.mine(10_000_000));
    b
}

/// A chain whose first block pays 50 coins to `key`, with its outputs replayed into the
/// unspent set.
fn funded_chain(key: &PrivateKey) -> (Blockchain, TransactionOutput) {
    let mut chain = Blockchain::new();
    let cb = coinbase(50 * COIN, 1, key.public_key());
    let out = cb.outputs[0];
    let genesis = genesis_with(at(1_000), vec![cb]);
    assert!(chain.add_block_checkable(&genesis));
    chain.add_block(genesis).unwrap();
    chain.rebuild_utxos();
    (chain, out)
}

fn spend(key: &PrivateKey, out: &TransactionOutput, pay: u64, id: u128, to: PublicKey) -> Transaction {
    let h = out.hash();
    let sig = Signature::sign_output(&h.0, key).unwrap();
    Transaction::new(vec![TransactionInput::new(h, sig)], vec![TransactionOutput::new(pay, id, to)])
}

#[test]
fn first_block_must_name_the_zero_hash() {
    let key = PrivateKey::new_key();
    let mut chain = Blockchain::new();
    let mut bad = block_on(BlockHash(btclib::sha256::Hash::hash(b"x")), at(5), vec![coinbase(50 * COIN, 1, key.public_key())]);
    assert!(bad.header.mine(10_000_000));
    assert!(matches!(chain.add_block(bad), Err(BtcError::InvalidBlock)));
    assert_eq!(chain.block_height(), 0);
    let good = genesis_with(at(5), vec![coinbase(50 * COIN, 1, key.public_key())]);
    assert!(chain.add_block(good).is_ok());
    assert_eq!(chain.block_height(), 1);
    assert!(chain.chain_tip().is_some());
}

#[test]
fn later_block_must_link_be_mined_and_pay_the_reward() {
    let key = PrivateKey::new_key();
    let (mut chain, _) = funded_chain(&key);
    let tip = chain.chain_tip().unwrap();
    // wrong reward: refused with an invalid transaction after the header checks pass
    let mut wrong = block_on(tip, at(2_000), vec![coinbase(50 * COIN + 1, 7, key.public_key())]);
    assert!(wrong.header.mine(10_000_000));
    assert!(chain.add_block_checkable(&wrong));
    assert!(matches!(chain.add_block(wrong), Err(BtcError::InvalidTransaction)));
    // an earlier timestamp is refused
    let mut early = block_on(tip, at(999), vec![coinbase(50 * COIN, 8, key.public_key())]);
    assert!(early.header.mine(10_000_000));
    assert!(matches!(chain.add_block(early), Err(BtcError::InvalidBlock)));
    // a correct block is appended
    let mut good = block_on(tip, at(2_000), vec![coinbase(50 * COIN, 9, key.public_key())]);
    assert!(good.header.mine(10_000_000));
    let expected_tip = good.hash();
    assert!(chain.add_block(good).is_ok());
    assert_eq!(chain.block_height(), 2);
    assert!(chain.chain_tip().unwrap().same(&expected_tip));
}

#[test]
fn merkle_root_mismatch_is_reported() {
    let key = PrivateKey::new_key();
    let (mut chain, _) = funded_chain(&key);
    let tip = chain.chain_tip().unwrap();
    let mut b = block_on(tip, at(2_000), vec![coinbase(50 * COIN, 9, key.public_key())]);
    b.header.merkle_root = MerkleRoot::calculate(&[coinbase(1, 1, key.public_key())]);
    assert!(b.header.mine(10_000_000));
    assert!(matches!(chain.add_block(b), Err(BtcError::InvalidMerkleRoot)));
}

#[test]
fn block_reward_halves() {
    assert_eq!(Block::block_reward(0), 50 * COIN);
    assert_eq!(Block::block_reward(209), 50 * COIN);
    assert_eq!(Block::block_reward(210), 25 * COIN);
    assert_eq!(Block::block_reward(420), 1_250_000_000);
    assert_eq!(Block::block_reward(210 * 63), 5_000_000_000 >> 63);
}

#[test]
fn resolve_refuses_duplicates_and_unknown_outputs() {
    let key = PrivateKey::new_key();
    let (chain, out) = funded_chain(&key);
    let tx = spend(&key, &out, 1, 2, key.public_key());
    assert_eq!(tx.resolve_inputs(chain.utxos()).unwrap().len(), 1);
    let dup = Transaction::new(vec![tx.inputs[0], tx.inputs[0]], tx.outputs.clone());
    assert!(matches!(dup.resolve_inputs(chain.utxos()), Err(BtcError::InvalidTransaction)));
    let stranger = spend(&key, &TransactionOutput::new(5, 99, key.public_key()), 1, 3, key.public_key());
    assert!(matches!(stranger.resolve_inputs(chain.utxos()), Err(BtcError::InvalidTransaction)));
}

#[test]
fn verified_spend_sums_both_sides() {
    let key = PrivateKey::new_key();
    let (chain, out) = funded_chain(&key);
    let tx = spend(&key, &out, 10 * COIN, 2, key.public_key());
    let resolved = tx.resolve_inputs(chain.utxos()).unwrap();
    assert_eq!(tx.verified_spend(resolved).unwrap(), (50 * COIN, 10 * COIN));
    let greedy = spend(&key, &out, 51 * COIN, 2, key.public_key());
    let resolved = greedy.resolve_inputs(chain.utxos()).unwrap();
    assert!(matches!(greedy.verified_spend(resolved), Err(BtcError::InvalidTransaction)));
}

#[test]
fn mempool_admits_a_valid_spend_with_its_fee() {
    let key = PrivateKey::new_key();
    let (mut chain, out) = funded_chain(&key);
    let tx = spend(&key, &out, 49 * COIN, 2, key.public_key());
    let id = tx.hash();
    assert!(chain.mempool_checkable(&tx));
    chain.add_to_mempool_at(tx, at(3_000)).unwrap();
    let entry = chain.mempool().get(&id.0).unwrap();
    assert_eq!(entry.miner_fees(), COIN);
    assert_eq!(entry.time_added().secs, 3_000);
    let found = chain.scan_utxos(key.public_key());
    assert_eq!(found.len(), 1);
    assert!(found[0].1);
}

#[test]
fn mempool_refuses_bad_signature_and_overspending() {
    let key = PrivateKey::new_key();
    let thief = PrivateKey::new_key();
    let (mut chain, out) = funded_chain(&key);
    let forged = spend(&thief, &out, 1, 2, thief.public_key());
    assert!(matches!(chain.add_to_mempool_at(forged, at(3_000)), Err(BtcError::InvalidSignature)));
    let greedy = spend(&key, &out, 51 * COIN, 2, key.public_key());
    assert!(matches!(chain.add_to_mempool_at(greedy, at(3_000)), Err(BtcError::InvalidTransaction)));
    assert_eq!(chain.mempool().len(), 0);
}

#[test]
fn replacement_needs_a_strictly_higher_fee() {
    let key = PrivateKey::new_key();
    let (mut chain, out) = funded_chain(&key);
    let first = spend(&key, &out, 49 * COIN, 2, key.public_key());
    let first_id = first.hash();
    chain.add_to_mempool_at(first, at(3_000)).unwrap();
    let same_fee = spend(&key, &out, 49 * COIN, 3, key.public_key());
    assert!(matches!(chain.add_to_mempool_at(same_fee, at(3_001)), Err(BtcError::TransactionDropped(_))));
    let better = spend(&key, &out, 48 * COIN, 4, key.public_key());
    let better_id = better.hash();
    chain.add_to_mempool_at(better, at(3_002)).unwrap();
    assert!(!chain.mempool().contains_key(&first_id.0));
    assert!(chain.mempool().contains_key(&better_id.0));
    assert_eq!(chain.mempool().len(), 1);
}

#[test]
fn expired_transactions_leave_and_release_their_claims() {
    let key = PrivateKey::new_key();
    let (mut chain, out) = funded_chain(&key);
    let tx = spend(&key, &out, 49 * COIN, 2, key.public_key());
    chain.add_to_mempool_at(tx, at(3_000)).unwrap();
    chain.cleanup_mempool_at(at(3_600));
    assert_eq!(chain.mempool().len(), 1);
    chain.cleanup_mempool_at(Timestamp { secs: 3_600, nanos: 1 });
    assert_eq!(chain.mempool().len(), 0);
    assert!(!chain.scan_utxos(key.public_key())[0].1);
    let cheap = spend(&key, &out, 50 * COIN, 5, key.public_key());
    assert!(chain.add_to_mempool_at(cheap, at(3_700)).is_ok());
}

#[test]
fn sorted_mempool_puts_the_highest_fee_first() {
    let key = PrivateKey::new_key();
    let mut chain = Blockchain::new();
    let a = coinbase(50 * COIN, 1, key.public_key());
    let genesis = genesis_with(at(1_000), vec![a.clone()]);
    chain.add_block(genesis).unwrap();
    let mut utxos = LookupTable::new();
    let o1 = TransactionOutput::new(10 * COIN, 11, key.public_key());
    let o2 = TransactionOutput::new(10 * COIN, 12, key.public_key());
    utxos.insert(o1.hash().0, o1);
    utxos.insert(o2.hash().0, o2);
    let blocks = chain.blocks().iter().map(|b| b.clone()).collect();
    let mut chain = Blockchain::from_parts(blocks, btclib::min_target(), utxos);
    let cheap = spend(&key, &o1, 10 * COIN - 10, 21, key.public_key());
    let rich = spend(&key, &o2, 10 * COIN - 20, 22, key.public_key());
    let rich_id = rich.hash();
    chain.add_to_mempool_at(cheap, at(2_000)).unwrap();
    chain.add_to_mempool_at(rich, at(2_000)).unwrap();
    let sorted = chain.sort_mempool();
    assert_eq!(sorted.len(), 2);
    assert!(sorted[0].hash().same(&rich_id));

    let template = chain.block_template_at(key.public_key(), at(5_000), 77).unwrap();
    assert_eq!(template.transactions.len(), 3);
    assert_eq!(template.transactions[0].outputs[0].value, 50 * COIN + 30);
    assert_eq!(template.transactions[0].outputs[0].unique_id, 77);
    assert!(template.transactions[1].hash().same(&rich_id));
    assert!(chain.template_is_current(&template));
    assert!(template.header.prev_block_hash.same(&chain.chain_tip().unwrap()));
}

#[test]
fn confirmed_transactions_leave_the_mempool() {
    let key = PrivateKey::new_key();
    let (mut chain, out) = funded_chain(&key);
    let tx = spend(&key, &out, 49 * COIN, 2, key.public_key());
    chain.add_to_mempool_at(tx, at(3_000)).unwrap();
    let mut template = chain.block_template_at(key.public_key(), at(4_000), 5).unwrap();
    assert!(template.header.mine(10_000_000));
    assert!(chain.add_block_checkable(&template));
    chain.add_block(template.clone()).unwrap();
    assert_eq!(chain.mempool().len(), 0);
    assert_eq!(chain.block_height(), 2);
    // the spent output is gone from the unspent set and its claim let go
    assert!(chain.utxos().get(&out.hash().0).is_none());
    let paid = template.transactions[1].outputs[0];
    assert!(chain.utxos().get(&paid.hash().0).is_some());
    let again = spend(&key, &out, 48 * COIN, 3, key.public_key());
    assert!(chain.mempool_checkable(&again));
    assert!(matches!(chain.add_to_mempool_at(again, at(5_000)), Err(_)));
    // the set kept block by block equals the one replayed from the first block
    let before = chain.utxos().len();
    chain.rebuild_utxos();
    assert_eq!(chain.utxos().len(), before);
    assert!(chain.utxos().get(&paid.hash().0).is_some());
}

#[test]
fn first_block_must_be_mined_rooted_and_pay_the_reward() {
    let key = PrivateKey::new_key();
    let mut chain = Blockchain::new();
    let txs = vec![coinbase(50 * COIN, 1, key.public_key())];
    let root = MerkleRoot::calculate(&txs);
    let unmined = Block::new(
        BlockHeader::new(at(5), 0, BlockHash::zero(), root, btclib::u256::U256::zero()),
        txs.clone(),
    );
    assert!(matches!(chain.add_block(unmined), Err(BtcError::InvalidBlock)));
    let mut unrooted = block_on(BlockHash::zero(), at(5), txs.clone());
    unrooted.header.merkle_root = MerkleRoot::calculate(&[coinbase(1, 1, key.public_key())]);
    assert!(unrooted.header.mine(10_000_000));
    assert!(matches!(chain.add_block(unrooted), Err(BtcError::InvalidMerkleRoot)));
    let greedy = genesis_with(at(5), vec![coinbase(50 * COIN + 1, 1, key.public_key())]);
    assert!(matches!(chain.add_block(greedy), Err(BtcError::InvalidTransaction)));
    assert_eq!(chain.block_height(), 0);
    assert!(chain.add_block(genesis_with(at(5), txs)).is_ok());
    assert_eq!(chain.block_height(), 1);
}

#[test]
fn block_at_copies_a_block() {
    let key = PrivateKey::new_key();
    let (chain, _) = funded_chain(&key);
    assert!(chain.block_at(0).unwrap().hash().same(&chain.chain_tip().unwrap()));
    assert!(chain.block_at(1).is_none());
}

#[test]
fn retarget_is_not_due_on_a_short_chain() {
    let key = PrivateKey::new_key();
    let (mut chain, _) = funded_chain(&key);
    assert!(chain.retarget_checkable());
    chain.try_adjust_target();
    assert!(chain.target().same(&btclib::min_target()));
}

#[test]
fn single_transaction_merkle_root_is_its_hash() {
    let key = PrivateKey::new_key();
    let tx = coinbase(1, 1, key.public_key());
    let root = MerkleRoot::calculate(&[tx.clone()]);
    assert!(root.0.same(&tx.hash().0));
    let two = MerkleRoot::calculate(&[tx.clone(), tx.clone()]);
    let three = MerkleRoot::calculate(&[tx.clone(), tx.clone(), tx.clone()]);
    assert!(!two.0.same(&root.0));
    assert!(!three.0.same(&two.0));
}

fn interval_chain(start: i64, end: i64, target: btclib::u256::U256) -> Blockchain {
    let key = PrivateKey::new_key();
    let mut blocks = Vec::new();
    for i in 0..50i64 {
        let time = if i == 0 { start } else if i == 49 { end } else { start + i };
        blocks.push(block_on(BlockHash::zero(), at(time), vec![coinbase(1, i as u128, key.public_key())]));
    }
    Blockchain::from_parts(blocks, target, LookupTable::new())
}

#[test]
fn slow_interval_makes_mining_easier_up_to_the_cap() {
    let mut chain = interval_chain(0, 1_500, btclib::u256::U256::from_u64(1_000));
    assert!(chain.retarget_checkable());
    chain.try_adjust_target();
    assert_eq!(chain.target().l0, 3_000);
    let mut capped = interval_chain(0, 1_000, btclib::min_target());
    capped.try_adjust_target();
    assert!(capped.target().same(&btclib::min_target()));
}

#[test]
fn fast_interval_makes_mining_at_most_four_times_harder() {
    let mut chain = interval_chain(0, 100, btclib::u256::U256::from_u64(1_000));
    chain.try_adjust_target();
    assert_eq!(chain.target().l0, 250);
    let mut half = interval_chain(0, 250, btclib::u256::U256::from_u64(1_000));
    half.try_adjust_target();
    assert_eq!(half.target().l0, 500);
    let mut slow = interval_chain(0, 100_000, btclib::u256::U256::from_u64(1_000));
    slow.try_adjust_target();
    assert_eq!(slow.target().l0, 4_000);
}

#[test]
fn target_scales_in_proportion_to_the_interval() {
    let mut chain = interval_chain(0, 750, btclib::u256::U256::from_u64(1_000));
    chain.try_adjust_target();
    assert_eq!(chain.target().l0, 1_500);
    let mut exact = interval_chain(0, 500, btclib::u256::U256::from_u64(1_000));
    exact.try_adjust_target();
    assert_eq!(exact.target().l0, 1_000);
    let mut uneven = interval_chain(0, 333, btclib::u256::U256::from_u64(1_000));
    uneven.try_adjust_target();
    assert_eq!(uneven.target().l0, 666);
}

#[test]
fn rebuild_replays_from_an_empty_set() {
    let key = PrivateKey::new_key();
    let (chain, out) = funded_chain(&key);
    let mut extra = LookupTable::new();
    let stray = TransactionOutput::new(7, 99, key.public_key());
    extra.insert(stray.hash().0, stray);
    extra.insert(out.hash().0, out);
    let mut rebuilt = Blockchain::from_parts(chain.blocks().clone(), chain.target(), extra);
    assert_eq!(rebuilt.utxos().len(), 2);
    rebuilt.rebuild_utxos();
    assert_eq!(rebuilt.utxos().len(), 1);
    assert!(rebuilt.utxos().get(&stray.hash().0).is_none());
    assert!(rebuilt.utxos().get(&out.hash().0).is_some());
    rebuilt.rebuild_utxos();
    assert_eq!(rebuilt.utxos().len(), 1);
}

#[test]
fn submit_block_checks_before_appending() {
    let key = PrivateKey::new_key();
    let mut chain = Blockchain::new();
    let genesis = genesis_with(at(1_000), vec![coinbase(50 * COIN, 1, key.public_key())]);
    assert!(matches!(chain.submit_block(genesis), Some(Ok(()))));
    assert_eq!(chain.block_height(), 1);
    let bad = genesis_with(at(2_000), vec![coinbase(50 * COIN, 2, key.public_key())]);
    assert!(matches!(chain.submit_block(bad), Some(Err(BtcError::InvalidBlock))));
    assert_eq!(chain.block_height(), 1);
}

#[test]
fn submit_transaction_checks_before_admitting() {
    let key = PrivateKey::new_key();
    let (mut chain, out) = funded_chain(&key);
    let tx = spend(&key, &out, 49 * COIN, 2, key.public_key());
    assert!(matches!(chain.submit_transaction(tx.clone()), Some(Ok(()))));
    assert_eq!(chain.mempool().len(), 1);
    let dup = spend(&key, &out, 49 * COIN, 3, key.public_key());
    assert!(matches!(chain.submit_transaction(dup), Some(Err(_))));
    assert_eq!(chain.mempool().len(), 1);
}

#[test]
fn mine_keeps_a_header_that_already_meets_its_target() {
    let all = btclib::u256::U256 { l0: u64::MAX, l1: u64::MAX, l2: u64::MAX, l3: u64::MAX };
    let mut header = BlockHeader::new(at(7), u64::MAX, BlockHash::zero(), MerkleRoot::calculate(&[coinbase(1, 1, PrivateKey::new_key().public_key())]), all);
    assert!(header.mine(5));
    assert_eq!(header.nonce, u64::MAX);
    assert_eq!(header.timestamp.secs, 7);
}

#[test]
fn mine_wraps_the_nonce_and_reports_failure() {
    let zero = btclib::u256::U256::zero();
    let mut header = BlockHeader::new(at(7), u64::MAX - 1, BlockHash::zero(), MerkleRoot::calculate(&[coinbase(1, 1, PrivateKey::new_key().public_key())]), zero);
    assert!(!header.mine(3));
    assert_eq!(header.nonce, 1);
    let mut plain = BlockHeader::new(at(7), 10, BlockHash::zero(), MerkleRoot::calculate(&[coinbase(1, 1, PrivateKey::new_key().public_key())]), zero);
    assert!(!plain.mine(4));
    assert_eq!(plain.nonce, 14);
    assert_eq!(plain.timestamp.secs, 7);
}

#[test]
fn first_block_built_by_the_library_is_accepted_once_mined() {
    let key = PrivateKey::new_key();
    let mut block = Block::first(key.public_key(), 42, at(10));
    assert_eq!(block.transactions.len(), 1);
    assert_eq!(block.transactions[0].outputs[0].value, 50 * COIN);
    assert_eq!(block.transactions[0].outputs[0].unique_id, 42);
    assert_eq!(block.header.nonce, 0);
    assert!(block.header.prev_block_hash.same(&BlockHash::zero()));
    assert!(block.header.mine(10_000_000));
    let mut chain = Blockchain::new();
    assert!(chain.add_block(block).is_ok());
    assert_eq!(chain.block_height(), 1);
}
