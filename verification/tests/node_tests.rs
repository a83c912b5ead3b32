use btclib::node::pick_longest;

#[test]
fn longest_chain_is_the_first_greatest_height() {
    let replies = vec![("a".to_string(), 3u64), ("b".to_string(), 7), ("c".to_string(), 7), ("d".to_string(), 2)];
    assert_eq!(pick_longest(&replies), Some(("b".to_string(), 7)));
    assert_eq!(pick_longest(&vec![]), None);
    assert_eq!(pick_longest(&vec![("x".to_string(), 0)]), Some(("x".to_string(), 0)));
}

use btclib::crypto::{PrivateKey, Signature};
use btclib::network::Message;
use btclib::node::{handle_message, message_checkable, Reaction};
use btclib::sha256::BlockHash;
use btclib::time::Timestamp;
use btclib::types::{Block, BlockHeader, Blockchain, Transaction, TransactionInput, TransactionOutput};
use btclib::utils::MerkleRoot;

fn at(secs: i64) -> Timestamp {
    Timestamp { secs, nanos: 0 }
}

fn chain_paying(key: &PrivateKey) -> (Blockchain, TransactionOutput) {
    let mut chain = Blockchain::new();
    let out = TransactionOutput::new(5_000_000_000, 1, key.public_key());
    let txs = vec![Transaction::new(vec![], vec![out])];
    let root = MerkleRoot::calculate(&txs);
    let mut genesis = Block::new(BlockHeader::new(at(100), 0, BlockHash::zero(), root, btclib::min_target()), txs);
    assert!(genesis.header.mine(10_000_000));
    chain.add_block(genesis).unwrap();
    chain.rebuild_utxos();
    (chain, out)
}

#[test]
fn node_answers_requests_from_its_chain() {
    let key = PrivateKey::new_key();
    let (mut chain, _) = chain_paying(&key);
    let peers = vec!["127.0.0.1:9001".to_string()];
    match handle_message(&mut chain, Message::AskBlockCount, peers.clone(), at(200), 1) {
        Reaction::Reply(Message::BlockCount(n)) => assert_eq!(n, 1),
        _ => panic!("expected a block count"),
    }
    match handle_message(&mut chain, Message::FetchBlock(0), peers.clone(), at(200), 1) {
        Reaction::Reply(Message::NewBlock(b)) => assert!(b.hash().same(&chain.chain_tip().unwrap())),
        _ => panic!("expected the block"),
    }
    assert!(matches!(
        handle_message(&mut chain, Message::FetchBlock(1), peers.clone(), at(200), 1),
        Reaction::Reply(Message::BlockNotFound)
    ));
    match handle_message(&mut chain, Message::DiscoverNodes, peers.clone(), at(200), 1) {
        Reaction::Reply(Message::NodeList(ns)) => assert_eq!(ns, peers),
        _ => panic!("expected the peers"),
    }
    assert!(matches!(
        handle_message(&mut chain, Message::BlockCount(3), peers.clone(), at(200), 1),
        Reaction::Reply(Message::Unsupported)
    ));
    match handle_message(&mut chain, Message::FetchUTXOs(key.public_key()), peers.clone(), at(200), 1) {
        Reaction::Reply(Message::UTXOs(found)) => {
            assert_eq!(found.len(), 1);
            assert!(!found[0].1);
        }
        _ => panic!("expected the outputs"),
    }
}

#[test]
fn submitted_transactions_are_relayed_and_templates_built() {
    let key = PrivateKey::new_key();
    let (mut chain, out) = chain_paying(&key);
    let h = out.hash();
    let tx = Transaction::new(
        vec![TransactionInput::new(h, Signature::sign_output(&h.0, &key).unwrap())],
        vec![TransactionOutput::new(4_999_999_000, 2, key.public_key())],
    );
    let msg = Message::SubmitTransaction(tx.clone());
    assert!(message_checkable(&chain, &msg));
    match handle_message(&mut chain, msg, vec![], at(300), 1) {
        Reaction::Broadcast(Message::NewTransaction(t)) => assert!(t.hash().same(&tx.hash())),
        _ => panic!("expected a relay"),
    }
    // the same transaction again collides with itself and pays no more
    match handle_message(&mut chain, Message::NewTransaction(tx.clone()), vec![], at(301), 1) {
        Reaction::Rejected(btclib::error::BtcError::TransactionDropped(_)) => {}
        _ => panic!("expected a refusal"),
    }
    match handle_message(&mut chain, Message::FetchTemplate(key.public_key()), vec![], at(400), 42) {
        Reaction::Reply(Message::Template(b)) => {
            assert_eq!(b.transactions.len(), 2);
            assert_eq!(b.transactions[0].outputs[0].value, 5_000_000_000 + 1_000);
            assert!(chain.template_is_current(&b));
            match handle_message(&mut chain, Message::ValidateTemplate(b), vec![], at(400), 1) {
                Reaction::Reply(Message::TemplateValidity(v)) => assert!(v),
                _ => panic!("expected a validity"),
            }
        }
        _ => panic!("expected a template"),
    }
}

#[test]
fn checked_handler_answers_like_the_plain_one() {
    let key = PrivateKey::new_key();
    let (mut chain, _) = chain_paying(&key);
    let peers = vec!["127.0.0.1:9001".to_string()];
    match btclib::node::handle_message_checked(&mut chain, Message::AskBlockCount, peers.clone(), at(200), 1) {
        Some(Reaction::Reply(Message::BlockCount(n))) => assert_eq!(n, 1),
        _ => panic!("expected a block count"),
    }
    let stale = Block::new(
        BlockHeader::new(at(300), 0, BlockHash::zero(), chain.blocks()[0].header.merkle_root, btclib::min_target()),
        chain.blocks()[0].transactions.clone(),
    );
    assert!(matches!(
        btclib::node::handle_message_checked(&mut chain, Message::NewBlock(stale), peers, at(300), 1),
        Some(Reaction::Rejected(_))
    ));
    assert_eq!(chain.block_height(), 1);
}

#[test]
fn peers_are_tried_once_and_up_to_the_cap() {
    let known = vec!["a:1".to_string(), "b:2".to_string()];
    assert!(!btclib::node::should_connect(&known, &"a:1".to_string(), 0));
    assert!(btclib::node::should_connect(&known, &"c:3".to_string(), 0));
    assert!(btclib::node::should_connect(&known, &"c:3".to_string(), btclib::MAX_PEERS_TO_CONNECT - 1));
    assert!(!btclib::node::should_connect(&known, &"c:3".to_string(), btclib::MAX_PEERS_TO_CONNECT));
    assert!(btclib::node::should_connect(&vec![], &"a:1".to_string(), 0));
}
