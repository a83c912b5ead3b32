use vstd::prelude::*;
use vstd::arithmetic::power2::{lemma_pow2_pos, pow2};
use crate::crypto::PublicKey;
use crate::error::BtcError;
use crate::sha256::{BlockHash, Txid};
use crate::time::Timestamp;
use crate::types::block::{
    Block, BlockHeader, BlockModel, block_hash_of, block_reward_at, block_views, coinbase_checkable,
    coinbase_valid, input_signature_ok, lemma_resolved_values, meets_target, transactions_valid,
    tx_views,
};
use crate::types::mempool::{
    admission_error, admits, by_fee, claim_inputs, claims_after_admission, claims_live,
    conflict_ids, expired, expired_ids, fee_order, fee_sum, inputs_of, inputs_of_txs,
    inputs_claimed, inputs_signed, keyed_by_txid, lemma_admission_keeps_consistency,
    lemma_claim_step, lemma_conflict_step,
    lemma_distinct_not_spent_before, lemma_eviction_keeps_consistency, mempool_consistent,
    lemma_inputs_of_insert, lemma_spends_step, mempool_safe, outbid, pool_after_admission,
    release_claims, sort_by_fee, spends, spent_by, template_count, tx_fee,
};
use crate::types::transaction::{
    Transaction, TransactionInput, TransactionOutput, TxModel, checked_sum_values, input_value,
    inputs_distinct, resolves, spend_ok, spent_outputs, spent_values, sums_fit, txid_of,
    utxo_hash_of,
};
use crate::u256::{U256, lemma_value_injective, u256_modulus};
use crate::utils::lookup::LookupTable;
use crate::utils::merkle_tree::{MerkleRoot, merkle_root_of};

verus! {

/// A transaction waiting in the mempool, with the time it arrived and the fee it pays.
pub struct MempoolEntry {
    time_added: Timestamp,
    miner_fees: u64,
    transaction: Transaction,
}

/// What a mempool entry holds: arrival time, fee and transaction.
pub type EntryModel = (Timestamp, u64, TxModel);

impl View for MempoolEntry {
    type V = EntryModel;

    closed spec fn view(&self) -> EntryModel {
        (self.time_added, self.miner_fees, self.transaction@)
    }
}

impl MempoolEntry {
    pub fn new(time_added: Timestamp, miner_fees: u64, transaction: Transaction) -> (r: Self)
        ensures
            r@ == (time_added, miner_fees, transaction@),
    {
        MempoolEntry { time_added, miner_fees, transaction }
    }

    pub fn time_added(&self) -> (r: Timestamp)
        ensures
            r == self@.0,
    {
        self.time_added
    }

    pub fn miner_fees(&self) -> (r: u64)
        ensures
            r == self@.1,
    {
        self.miner_fees
    }

    pub fn transaction(&self) -> (r: &Transaction)
        ensures
            r@ == self@.2,
    {
        &self.transaction
    }
}

/// The chain, the unspent outputs it confirms, and the mempool of waiting transactions.
pub struct Blockchain {
    blocks: Vec<Block>,
    target: U256,
    // confirmed, spendable outputs
    utxos: LookupTable<TransactionOutput>,
    mempool: LookupTable<MempoolEntry>,
    // tracks UTXOs primed for spending by a transaction in mempool
    // utxo hash → mempool tx spending it
    pending_spends: LookupTable<Txid>,
}

/// The ideal time of one interval of `DIFFICULTY_UPDATE_INTERVAL` blocks, in seconds.
pub open spec fn ideal_interval() -> int {
    (crate::IDEAL_BLOCK_TIME * crate::DIFFICULTY_UPDATE_INTERVAL) as int
}

/// A target scaled in proportion to an interval: the target times the whole seconds from
/// `start` to `end`, divided by the ideal time of an interval and rounded down; zero when
/// no time passed.
pub open spec fn scaled_target(t: int, start: Timestamp, end: Timestamp) -> int {
    let secs = end.whole_seconds_since(start);
    if secs > 0 {
        t * secs / ideal_interval()
    } else {
        0
    }
}

/// The scaled target kept within a factor of four of `t`.
pub open spec fn clamped_target(t: int, start: Timestamp, end: Timestamp) -> int {
    let scaled = scaled_target(t, start, end);
    if scaled < t / 4 {
        t / 4
    } else if scaled > t * 4 {
        t * 4
    } else {
        scaled
    }
}

/// The first timestamp of the last interval of `blocks`.
pub open spec fn interval_start(blocks: Seq<BlockModel>) -> Timestamp {
    blocks[blocks.len() - crate::DIFFICULTY_UPDATE_INTERVAL].0.timestamp
}

/// The last timestamp of `blocks`.
pub open spec fn interval_end(blocks: Seq<BlockModel>) -> Timestamp {
    blocks[blocks.len() - 1].0.timestamp
}

/// An adjustment is due: the chain is nonempty and its length a multiple of the interval.
pub open spec fn retarget_due(blocks: Seq<BlockModel>) -> bool {
    blocks.len() > 0 && blocks.len() % (crate::DIFFICULTY_UPDATE_INTERVAL as nat) == 0
}

/// Retargeting computes four times the target within 256 bits.
pub open spec fn retarget_safe(blocks: Seq<BlockModel>, target: U256) -> bool {
    retarget_due(blocks) ==> target.value() * 4 < u256_modulus()
}

/// The value of the target after retargeting a chain: scaled in proportion to the time
/// the last interval took against the ideal time, kept within a factor of four of the old
/// target, and capped at the minimum target.
pub open spec fn retarget_value(blocks: Seq<BlockModel>, target: U256) -> int {
    if !retarget_due(blocks) {
        target.value()
    } else {
        let clamped = clamped_target(target.value(), interval_start(blocks), interval_end(blocks));
        if clamped <= crate::spec_min_target().value() {
            clamped
        } else {
            crate::spec_min_target().value()
        }
    }
}


/// Retargeting looks only at the last interval: two chains of the same length whose last
/// `DIFFICULTY_UPDATE_INTERVAL` blocks agree retarget the same target to the same value,
/// whatever their earlier blocks hold.
pub proof fn lemma_retarget_reads_last_interval(a: Seq<BlockModel>, b: Seq<BlockModel>, target: U256)
    requires
        a.len() == b.len(),
        forall|i: int|
            0 <= i < a.len() && a.len() - crate::DIFFICULTY_UPDATE_INTERVAL <= i ==> #[trigger] a[i] == b[i],
    ensures
        retarget_value(a, target) == retarget_value(b, target),
{
    if retarget_due(a) {
        let n = a.len() as int;
        assert(a[n - crate::DIFFICULTY_UPDATE_INTERVAL] == b[n - crate::DIFFICULTY_UPDATE_INTERVAL]);
        assert(a[n - 1] == b[n - 1]);
    }
}

/// When the last interval took exactly the ideal time, from the timestamp of its first
/// block to that of the chain's last block, retargeting keeps a target that is within the
/// cap.
pub proof fn lemma_retarget_keeps_ideal_pace(blocks: Seq<BlockModel>, target: U256)
    requires
        retarget_due(blocks),
        blocks[blocks.len() - 1].0.timestamp.whole_seconds_since(
            blocks[blocks.len() - crate::DIFFICULTY_UPDATE_INTERVAL].0.timestamp,
        ) == crate::IDEAL_BLOCK_TIME * crate::DIFFICULTY_UPDATE_INTERVAL,
        target.value() <= crate::spec_min_target().value(),
    ensures
        retarget_value(blocks, target) == target.value(),
{
    let t = target.value();
    crate::u256::lemma_value_bounds(target);
    assert(t * 500 / 500 == t) by (nonlinear_arith)
        requires
            t >= 0,
    ;
    assert(t / 4 <= t && t <= t * 4);
}

/// Retargeting scales the target in proportion to the time the last interval took: where
/// that time lies between a quarter of and four times the ideal time and four times the
/// target is within the cap, the new target is the old one times the seconds taken over
/// the ideal seconds, rounded down.
pub proof fn lemma_retarget_proportional(blocks: Seq<BlockModel>, target: U256)
    requires
        retarget_due(blocks),
        125 <= blocks[blocks.len() - 1].0.timestamp.whole_seconds_since(
            blocks[blocks.len() - crate::DIFFICULTY_UPDATE_INTERVAL].0.timestamp,
        ) <= 2000,
        target.value() * 4 <= crate::spec_min_target().value(),
    ensures
        ({
            let secs = blocks[blocks.len() - 1].0.timestamp.whole_seconds_since(
                blocks[blocks.len() - crate::DIFFICULTY_UPDATE_INTERVAL].0.timestamp,
            );
            let v = retarget_value(blocks, target);
            &&& v * 500 <= target.value() * secs
            &&& target.value() * secs < v * 500 + 500
        }),
{
    let t = target.value();
    let secs = blocks[blocks.len() - 1].0.timestamp.whole_seconds_since(
        blocks[blocks.len() - crate::DIFFICULTY_UPDATE_INTERVAL].0.timestamp,
    );
    crate::u256::lemma_value_bounds(target);
    let q = t * secs / 500;
    assert(t / 4 <= q && q <= t * 4) by (nonlinear_arith)
        requires
            t >= 0,
            125 <= secs <= 2000,
            q == t * secs / 500,
    ;
    assert(q * 500 <= t * secs && t * secs < q * 500 + 500) by (nonlinear_arith)
        requires
            t >= 0,
            secs >= 0,
            q == t * secs / 500,
    ;
    assert(retarget_value(blocks, target) == q);
}

/// Retargeting keeps the target within a factor of four of the old one and never above
/// the minimum target, unless that cap itself lies below a quarter of the old target;
/// when no adjustment is due the target stays as it is.
pub proof fn lemma_retarget_bounds(blocks: Seq<BlockModel>, target: U256)
    ensures
        !retarget_due(blocks) ==> retarget_value(blocks, target) == target.value(),
        retarget_due(blocks) ==> {
            let v = retarget_value(blocks, target);
            let t = target.value();
            let cap = crate::spec_min_target().value();
            &&& v <= cap
            &&& v <= t * 4
            &&& (v >= t / 4 || v == cap)
        },
{
    let t = target.value();
    assert(t >= 0) by {
        crate::u256::lemma_value_bounds(target);
    }
    assert(t / 4 <= t * 4) by (nonlinear_arith)
        requires
            t >= 0,
    ;
}


/// `ks` lists, once each, the unspent outputs locked to `key`, and `found` holds each with
/// whether a mempool transaction already claims it.
pub open spec fn utxo_listing(
    utxos: Map<crate::sha256::Hash, TransactionOutput>,
    pending: Map<crate::sha256::Hash, Txid>,
    key: PublicKey,
    ks: Seq<crate::sha256::Hash>,
    found: Seq<(TransactionOutput, bool)>,
) -> bool {
    &&& ks.len() == found.len()
    &&& ks.no_duplicates()
    &&& forall|k: crate::sha256::Hash| ks.contains(k) <==> (utxos.contains_key(k) && utxos[k].pubkey == key)
    &&& forall|i: int| 0 <= i < ks.len() ==> #[trigger] found[i] == (utxos[ks[i]], pending.contains_key(ks[i]))
}


/// The block built for a miner from a fee listing `ks` of the mempool, as `block_template_at`
/// answers: an error exactly when the reward and fees do not fit in 64 bits; otherwise the
/// coinbase, then the first transactions of the listing, under a header at `now` with nonce
/// zero and the current target that names the chain's last block, or the zero hash on an
/// empty chain.
pub open spec fn template_built(
    chain: Seq<BlockModel>,
    target: U256,
    pool: Map<crate::sha256::Hash, EntryModel>,
    ks: Seq<crate::sha256::Hash>,
    pubkey: PublicKey,
    now: Timestamp,
    unique_id: u128,
    r: Result<Block, BtcError>,
) -> bool {
    let m = template_count(ks.len() as int);
    let height = chain.len();
    let fits = (height as int) / (crate::HALVING_INTERVAL as int) < 64 && block_reward_at(height as u64) + fee_sum(pool, ks, m)
        <= u64::MAX;
    let value = (block_reward_at(height as u64) + fee_sum(pool, ks, m)) as u64;
    let coinbase: TxModel = (Seq::empty(), seq![TransactionOutput { value, unique_id, pubkey }]);
    let txs = seq![coinbase] + Seq::new(m as nat, |q: int| pool[ks[q]].2);
    &&& r is Ok <==> fits
    &&& r matches Err(e) ==> e is InvalidTransaction
    &&& r matches Ok(b) ==> {
        &&& b@.1 == txs
        &&& b@.0.timestamp == now
        &&& b@.0.nonce == 0
        &&& b@.0.target == target
        &&& b@.0.merkle_root == merkle_root_of(txs)
        &&& (chain.len() == 0 ==> b@.0.prev_block_hash.0.0.value() == 0)
        &&& (chain.len() > 0 ==> b@.0.prev_block_hash == block_hash_of(chain.last()))
    }
}

/// Fees are never negative, so a longer prefix of a listing sums to at least as much.
proof fn lemma_fee_sum_grows(pool: Map<crate::sha256::Hash, EntryModel>, ks: Seq<crate::sha256::Hash>, a: int, b: int)
    requires
        0 <= a <= b,
    ensures
        fee_sum(pool, ks, a) <= fee_sum(pool, ks, b),
    decreases b - a,
{
    if a < b {
        lemma_fee_sum_grows(pool, ks, a, b - 1);
    }
}

/// The outputs left after spending the inputs in order.
pub open spec fn spend_inputs(m: Map<crate::sha256::Hash, TransactionOutput>, ins: Seq<TransactionInput>) -> Map<crate::sha256::Hash, TransactionOutput>
    decreases ins.len(),
{
    if ins.len() == 0 {
        m
    } else {
        spend_inputs(m, ins.drop_last()).remove(ins.last().prev_transaction_output_hash.0)
    }
}

/// The outputs after adding new outputs in order, each under its hash.
pub open spec fn add_outputs(m: Map<crate::sha256::Hash, TransactionOutput>, outs: Seq<TransactionOutput>) -> Map<crate::sha256::Hash, TransactionOutput>
    decreases outs.len(),
{
    if outs.len() == 0 {
        m
    } else {
        add_outputs(m, outs.drop_last()).insert(utxo_hash_of(outs.last()).0, outs.last())
    }
}

/// The outputs after replaying a transaction: its inputs spent, then its outputs added.
pub open spec fn replay_transaction(m: Map<crate::sha256::Hash, TransactionOutput>, t: TxModel) -> Map<crate::sha256::Hash, TransactionOutput> {
    add_outputs(spend_inputs(m, t.0), t.1)
}

/// The outputs after replaying transactions in order.
pub open spec fn replay_transactions(m: Map<crate::sha256::Hash, TransactionOutput>, txs: Seq<TxModel>) -> Map<crate::sha256::Hash, TransactionOutput>
    decreases txs.len(),
{
    if txs.len() == 0 {
        m
    } else {
        replay_transaction(replay_transactions(m, txs.drop_last()), txs.last())
    }
}

/// The outputs after replaying blocks in order.
pub open spec fn replay_blocks(m: Map<crate::sha256::Hash, TransactionOutput>, blocks: Seq<BlockModel>) -> Map<crate::sha256::Hash, TransactionOutput>
    decreases blocks.len(),
{
    if blocks.len() == 0 {
        m
    } else {
        replay_transactions(replay_blocks(m, blocks.drop_last()), blocks.last().1)
    }
}


/// One of the outputs hashes to `k`.
pub open spec fn creates(outs: Seq<TransactionOutput>, k: crate::sha256::Hash) -> bool {
    exists|j: int| 0 <= j < outs.len() && utxo_hash_of(#[trigger] outs[j]).0 == k
}

proof fn lemma_spend_inputs_at(m: Map<crate::sha256::Hash, TransactionOutput>, ins: Seq<TransactionInput>, k: crate::sha256::Hash)
    ensures
        spend_inputs(m, ins).contains_key(k) <==> m.contains_key(k) && !spends(ins, k),
        spend_inputs(m, ins).contains_key(k) ==> spend_inputs(m, ins)[k] == m[k],
    decreases ins.len(),
{
    if ins.len() > 0 {
        let rest = ins.drop_last();
        let n = ins.len() - 1;
        lemma_spend_inputs_at(m, rest, k);
        assert(ins.subrange(0, n) =~= rest);
        assert(ins.subrange(0, n + 1) =~= ins);
        lemma_spends_step(ins, n, k);
    }
}

proof fn lemma_add_outputs_at(m: Map<crate::sha256::Hash, TransactionOutput>, outs: Seq<TransactionOutput>, k: crate::sha256::Hash)
    ensures
        add_outputs(m, outs).contains_key(k) <==> m.contains_key(k) || creates(outs, k),
        !creates(outs, k) ==> add_outputs(m, outs)[k] == m[k],
    decreases outs.len(),
{
    if outs.len() > 0 {
        let rest = outs.drop_last();
        let n = outs.len() - 1;
        lemma_add_outputs_at(m, rest, k);
        if creates(outs, k) {
            let j = choose|j: int| 0 <= j < outs.len() && utxo_hash_of(#[trigger] outs[j]).0 == k;
            if j < n {
                assert(rest[j] == outs[j]);
            }
        }
        if creates(rest, k) {
            let j = choose|j: int| 0 <= j < rest.len() && utxo_hash_of(#[trigger] rest[j]).0 == k;
            assert(outs[j] == rest[j]);
        }
        if utxo_hash_of(outs[n]).0 == k {
            assert(creates(outs, k));
        }
    }
}

/// What replaying one transaction does to the unspent outputs at a key: an output is
/// there afterwards exactly when it was there and no input of the transaction spends it,
/// or one of the transaction's outputs hashes to it; an output that is neither spent nor
/// created keeps its value.
pub proof fn lemma_replay_transaction_at(m: Map<crate::sha256::Hash, TransactionOutput>, t: TxModel, k: crate::sha256::Hash)
    ensures
        replay_transaction(m, t).contains_key(k) <==> (m.contains_key(k) && !spends(t.0, k)) || creates(t.1, k),
        m.contains_key(k) && !spends(t.0, k) && !creates(t.1, k) ==> replay_transaction(m, t)[k] == m[k],
{
    lemma_spend_inputs_at(m, t.0, k);
    lemma_add_outputs_at(spend_inputs(m, t.0), t.1, k);
}

/// Replaying transactions replays them one after another, in order: none leaves the set
/// as it is, and one more is replayed on top of the ones before it.
pub proof fn lemma_replay_in_order(m: Map<crate::sha256::Hash, TransactionOutput>, txs: Seq<TxModel>, t: TxModel)
    ensures
        replay_transactions(m, Seq::empty()) == m,
        replay_transactions(m, txs.push(t)) == replay_transaction(replay_transactions(m, txs), t),
        replay_transactions(m, seq![t]) == replay_transaction(m, t),
{
    assert(txs.push(t).drop_last() =~= txs);
    assert(seq![t].drop_last() =~= Seq::<TxModel>::empty());
}

/// Replaying blocks replays each block's transactions on top of the blocks before it.
pub proof fn lemma_replay_blocks_in_order(m: Map<crate::sha256::Hash, TransactionOutput>, blocks: Seq<BlockModel>, b: BlockModel)
    ensures
        replay_blocks(m, Seq::empty()) == m,
        replay_blocks(m, blocks.push(b)) == replay_transactions(replay_blocks(m, blocks), b.1),
{
    assert(blocks.push(b).drop_last() =~= blocks);
}

/// Every output an input of a replayed transaction spends is gone afterwards, unless one
/// of the transaction's own outputs hashes to it.
pub proof fn lemma_replay_spends_every_input(m: Map<crate::sha256::Hash, TransactionOutput>, t: TxModel, j: int)
    requires
        0 <= j < t.0.len(),
        !creates(t.1, t.0[j].prev_transaction_output_hash.0),
    ensures
        !replay_transaction(m, t).contains_key(t.0[j].prev_transaction_output_hash.0),
{
    let k = t.0[j].prev_transaction_output_hash.0;
    lemma_replay_transaction_at(m, t, k);
    assert(spends(t.0, k));
}

/// Every output of the set is kept under its own hash.
pub open spec fn keyed_by_hash(m: Map<crate::sha256::Hash, TransactionOutput>) -> bool {
    forall|k: crate::sha256::Hash| #[trigger] m.contains_key(k) ==> utxo_hash_of(m[k]).0 == k
}

proof fn lemma_spend_keeps_keys(m: Map<crate::sha256::Hash, TransactionOutput>, ins: Seq<TransactionInput>)
    requires
        keyed_by_hash(m),
    ensures
        keyed_by_hash(spend_inputs(m, ins)),
    decreases ins.len(),
{
    if ins.len() > 0 {
        lemma_spend_keeps_keys(m, ins.drop_last());
    }
}

proof fn lemma_add_keeps_keys(m: Map<crate::sha256::Hash, TransactionOutput>, outs: Seq<TransactionOutput>)
    requires
        keyed_by_hash(m),
    ensures
        keyed_by_hash(add_outputs(m, outs)),
    decreases outs.len(),
{
    if outs.len() > 0 {
        lemma_add_keeps_keys(m, outs.drop_last());
    }
}

proof fn lemma_transactions_keep_keys(m: Map<crate::sha256::Hash, TransactionOutput>, txs: Seq<TxModel>)
    requires
        keyed_by_hash(m),
    ensures
        keyed_by_hash(replay_transactions(m, txs)),
    decreases txs.len(),
{
    if txs.len() > 0 {
        let before = replay_transactions(m, txs.drop_last());
        lemma_transactions_keep_keys(m, txs.drop_last());
        lemma_spend_keeps_keys(before, txs.last().0);
        lemma_add_keeps_keys(spend_inputs(before, txs.last().0), txs.last().1);
    }
}

proof fn lemma_blocks_keep_keys(m: Map<crate::sha256::Hash, TransactionOutput>, blocks: Seq<BlockModel>)
    requires
        keyed_by_hash(m),
    ensures
        keyed_by_hash(replay_blocks(m, blocks)),
    decreases blocks.len(),
{
    if blocks.len() > 0 {
        lemma_blocks_keep_keys(m, blocks.drop_last());
        lemma_transactions_keep_keys(replay_blocks(m, blocks.drop_last()), blocks.last().1);
    }
}

/// Replaying blocks from an empty set keeps every output under its own hash.
pub proof fn lemma_replay_keys_by_hash(blocks: Seq<BlockModel>)
    ensures
        keyed_by_hash(replay_blocks(Map::empty(), blocks)),
{
    lemma_blocks_keep_keys(Map::empty(), blocks);
}

/// Rebuilding the unspent outputs a second time changes nothing: both rebuilds replay the
/// same blocks onto an empty set.
pub proof fn lemma_rebuild_twice(first: Blockchain, second: Blockchain)
    requires
        first.utxo_map() == replay_blocks(Map::empty(), first.chain()),
        second.chain() == first.chain(),
        second.utxo_map() == replay_blocks(Map::empty(), first.chain()),
    ensures
        second.utxo_map() == first.utxo_map(),
{
}

/// A block links to the chain's last block, or, as the first block, to the zero hash.
pub open spec fn prev_link_ok(chain: Seq<BlockModel>, b: BlockModel) -> bool {
    if chain.len() == 0 {
        b.0.prev_block_hash.0.0.value() == 0
    } else {
        b.0.prev_block_hash == block_hash_of(chain.last())
    }
}

/// A block is strictly later than the chain's last block.
pub open spec fn timestamp_after(chain: Seq<BlockModel>, b: BlockModel) -> bool {
    !b.0.timestamp.is_before_or_at(chain.last().0.timestamp)
}

/// The checks that every block must pass after its link, in the order they are made:
/// proof of work, the merkle root, a timestamp after the last block's (where there is
/// one) and transactions valid against the unspent outputs.
pub open spec fn block_rules_ok(chain: Seq<BlockModel>, utxos: Map<crate::sha256::Hash, TransactionOutput>, b: BlockModel) -> bool {
    &&& meets_target(b.0)
    &&& merkle_root_of(b.1) == b.0.merkle_root
    &&& chain.len() > 0 ==> timestamp_after(chain, b)
    &&& transactions_valid(b.1, utxos, chain.len() as u64)
}

/// The chain accepts the block.
pub open spec fn block_accepted(chain: Seq<BlockModel>, utxos: Map<crate::sha256::Hash, TransactionOutput>, b: BlockModel) -> bool {
    prev_link_ok(chain, b) && block_rules_ok(chain, utxos, b)
}

/// An empty chain accepts a first block made of one coinbase that pays exactly the reward
/// at height 0, linked to the all-zero hash and carrying its merkle root, once it is mined.
pub proof fn lemma_mined_first_block_accepted(b: BlockModel, out: TransactionOutput)
    requires
        b.1 == seq![(Seq::<TransactionInput>::empty(), seq![out])],
        out.value == block_reward_at(0),
        b.0.prev_block_hash.0.0.value() == 0,
        merkle_root_of(b.1) == b.0.merkle_root,
        meets_target(b.0),
    ensures
        block_accepted(Seq::empty(), Map::empty(), b),
{
    let txs = b.1;
    assert(seq![out].drop_last() =~= Seq::<TransactionOutput>::empty());
    assert(seq![out].last() == out);
    assert(crate::types::transaction::sum_values(seq![out]) == out.value) by {
        reveal_with_fuel(crate::types::transaction::sum_values, 2);
    }
    assert(crate::types::block::miner_fees_of(txs, Map::empty()) == 0);
}

/// What acceptance means for a block on a nonempty chain: it names the hash of the chain's
/// last block, meets its own target, carries the merkle root of its transactions and is
/// strictly later than the chain's last block.
pub proof fn lemma_accepted_block_extends_tip(chain: Seq<BlockModel>, utxos: Map<crate::sha256::Hash, TransactionOutput>, b: BlockModel)
    requires
        chain.len() > 0,
        block_accepted(chain, utxos, b),
    ensures
        b.0.prev_block_hash == block_hash_of(chain[chain.len() - 1]),
        meets_target(b.0),
        merkle_root_of(b.1) == b.0.merkle_root,
        !b.0.timestamp.is_before_or_at(chain[chain.len() - 1].0.timestamp),
{
    assert(prev_link_ok(chain, b));
    assert(block_rules_ok(chain, utxos, b));
    assert(timestamp_after(chain, b));
    assert(chain.last() == chain[chain.len() - 1]);
}

/// A block that names the hash of the chain's last block, meets its own target, carries
/// the merkle root of its transactions, is strictly later than the last block and holds
/// transactions valid at the chain's height is accepted.
pub proof fn lemma_valid_block_accepted(chain: Seq<BlockModel>, utxos: Map<crate::sha256::Hash, TransactionOutput>, b: BlockModel)
    requires
        chain.len() > 0,
        b.0.prev_block_hash == block_hash_of(chain[chain.len() - 1]),
        meets_target(b.0),
        merkle_root_of(b.1) == b.0.merkle_root,
        !b.0.timestamp.is_before_or_at(chain[chain.len() - 1].0.timestamp),
        transactions_valid(b.1, utxos, chain.len() as u64),
    ensures
        block_accepted(chain, utxos, b),
{
    assert(chain.last() == chain[chain.len() - 1]);
}

/// Checking the block reaches no computation that would panic: the merkle root of no
/// transactions, or an overflowing sum.
pub open spec fn block_checkable(chain: Seq<BlockModel>, utxos: Map<crate::sha256::Hash, TransactionOutput>, b: BlockModel) -> bool {
    &&& (prev_link_ok(chain, b) && meets_target(b.0)) ==> b.1.len() > 0
    &&& (prev_link_ok(chain, b) && meets_target(b.0) && merkle_root_of(b.1) == b.0.merkle_root && (
    chain.len() > 0 ==> timestamp_after(chain, b))) ==> coinbase_checkable(
        b.1,
        utxos,
        chain.len() as u64,
    )
}

/// Checking and appending the block reaches no computation that would panic: the merkle
/// root of no transactions, an overflowing sum, or an overflowing retarget.
pub open spec fn add_block_safe(chain: Seq<BlockModel>, utxos: Map<crate::sha256::Hash, TransactionOutput>, target: U256, b: BlockModel) -> bool {
    &&& block_checkable(chain, utxos, b)
    &&& block_accepted(chain, utxos, b) ==> retarget_safe(chain.push(b), target)
}


/// The state after `add_block` answered `r` for a block: on success the block is appended,
/// the target retargeted, its transactions gone from the mempool with their claims, and
/// the block replayed onto the unspent outputs; on failure the error names the first
/// failed check and nothing changes.
pub open spec fn block_added(old: Blockchain, new: Blockchain, b: BlockModel, r: Result<(), BtcError>) -> bool {
    &&& new.wf()
    &&& r is Ok <==> block_accepted(old.chain(), old.utxo_map(), b)
    &&& r matches Err(e) ==> add_block_error(old.chain(), old.utxo_map(), b, e)
    &&& r is Err ==> {
        &&& new.chain() == old.chain()
        &&& new.current_target() == old.current_target()
        &&& new.mempool_map() == old.mempool_map()
    }
    &&& r is Ok ==> {
        &&& new.chain() == old.chain().push(b)
        &&& new.current_target().value() == retarget_value(old.chain().push(b), old.current_target())
        &&& new.mempool_map() == old.mempool_map().remove_keys(block_txids(b.1))
        &&& new.pending_map() == old.pending_map().remove_keys(inputs_of(old.mempool_map(), block_txids(b.1)))
        &&& new.utxo_map() == replay_transactions(old.utxo_map(), b.1)
    }
    &&& r is Err ==> new.utxo_map() == old.utxo_map() && new.pending_map() == old.pending_map()
}

/// The state after `add_to_mempool_at` answered `r` for a transaction at `now`.
pub open spec fn transaction_added(old: Blockchain, new: Blockchain, t: TxModel, now: Timestamp, r: Result<(), BtcError>) -> bool {
    &&& new.wf()
    &&& new.chain() == old.chain()
    &&& new.current_target() == old.current_target()
    &&& new.utxo_map() == old.utxo_map()
    &&& r is Ok <==> admits(t, old.utxo_map(), old.mempool_map(), old.pending_map())
    &&& r matches Err(e) ==> admission_error(t, old.utxo_map(), e)
    &&& r is Err ==> new.mempool_map() == old.mempool_map() && new.pending_map() == old.pending_map()
    &&& r is Ok ==> new.mempool_map() == pool_after_admission(
        t,
        old.utxo_map(),
        old.mempool_map(),
        old.pending_map(),
        now,
    )
    &&& r is Ok ==> new.pending_map() == claims_after_admission(t, old.mempool_map(), old.pending_map())
}


/// Admitting a transaction keeps the chain's mempool consistent with its claims, unless
/// a different transaction with the same hash is already in the mempool.
pub proof fn lemma_admission_keeps_chain_consistent(
    old: Blockchain,
    new: Blockchain,
    t: TxModel,
    now: Timestamp,
    r: Result<(), BtcError>,
)
    requires
        mempool_consistent(old.mempool_map(), old.pending_map()),
        old.mempool_map().contains_key(txid_of(t).0) ==> old.mempool_map()[txid_of(t).0].2 == t,
        transaction_added(old, new, t, now, r),
    ensures
        mempool_consistent(new.mempool_map(), new.pending_map()),
{
    if r is Ok {
        lemma_admission_keeps_consistency(t, old.utxo_map(), old.mempool_map(), old.pending_map(), now);
    }
}

/// Evicting expired transactions keeps the chain's mempool consistent with its claims.
pub proof fn lemma_expiry_keeps_chain_consistent(old: Blockchain, new: Blockchain, now: Timestamp)
    requires
        mempool_consistent(old.mempool_map(), old.pending_map()),
        new.mempool_map() == old.mempool_map().remove_keys(expired_ids(old.mempool_map(), now)),
        new.pending_map() == old.pending_map().remove_keys(
            inputs_of(old.mempool_map(), expired_ids(old.mempool_map(), now)),
        ),
    ensures
        mempool_consistent(new.mempool_map(), new.pending_map()),
{
    lemma_eviction_keeps_consistency(old.mempool_map(), old.pending_map(), expired_ids(old.mempool_map(), now));
}

/// Appending a block keeps the mempool consistent with its claims: the confirmed
/// transactions leave together with their claims.
pub proof fn lemma_block_keeps_claims(old: Blockchain, new: Blockchain, b: BlockModel, r: Result<(), BtcError>)
    requires
        mempool_consistent(old.mempool_map(), old.pending_map()),
        block_added(old, new, b, r),
    ensures
        mempool_consistent(new.mempool_map(), new.pending_map()),
{
    if r is Ok {
        lemma_eviction_keeps_consistency(old.mempool_map(), old.pending_map(), block_txids(b.1));
    }
}

/// Appending a block keeps the unspent outputs equal to the replay of the whole chain
/// from an empty set, where they were before.
pub proof fn lemma_block_keeps_replay(old: Blockchain, new: Blockchain, b: BlockModel, r: Result<(), BtcError>)
    requires
        old.utxo_map() == replay_blocks(Map::empty(), old.chain()),
        block_added(old, new, b, r),
    ensures
        new.utxo_map() == replay_blocks(Map::empty(), new.chain()),
{
    if r is Ok {
        assert(new.chain().drop_last() =~= old.chain());
    }
}

/// The hashes of a block's transactions.
pub open spec fn block_txids(txs: Seq<TxModel>) -> Set<crate::sha256::Hash> {
    Set::new(|h: crate::sha256::Hash| exists|i: int| 0 <= i < txs.len() && #[trigger] txid_of(txs[i]).0 == h)
}

/// Replays transactions onto a table of unspent outputs: for each in order, the outputs
/// its inputs spend are removed, then its outputs are added under their hashes.
fn replay_into(utxos: &mut LookupTable<TransactionOutput>, txs: &Vec<Transaction>)
    requires
        old(utxos).wf(),
    ensures
        final(utxos).wf(),
        final(utxos)@ == replay_transactions(old(utxos)@, txs@.map_values(|t: Transaction| t@)),
{
    let ghost tv = txs@.map_values(|t: Transaction| t@);
    let ghost start = utxos@;
    let n = txs.len();
    let mut t: usize = 0;
    while t < n
        invariant
            utxos.wf(),
            tv == txs@.map_values(|t: Transaction| t@),
            n == tv.len(),
            n == txs@.len(),
            t <= n,
            utxos@ == replay_transactions(start, tv.subrange(0, t as int)),
        decreases n - t,
    {
        let ghost before_tx = utxos@;
        let ghost txm = tv[t as int];
        assert(txm == txs@[t as int]@);
        let ni = txs[t].inputs.len();
        let mut i: usize = 0;
        while i < ni
            invariant
                utxos.wf(),
                t < n,
                n == tv.len(),
                n == txs@.len(),
                txm == tv[t as int],
                txm == txs@[t as int]@,
                ni == txm.0.len(),
                i <= ni,
                utxos@ == spend_inputs(before_tx, txm.0.subrange(0, i as int)),
            decreases ni - i,
        {
            let h = txs[t].inputs[i].prev_transaction_output_hash.0;
            utxos.remove(&h);
            proof {
                assert(txm.0.subrange(0, i + 1).drop_last() =~= txm.0.subrange(0, i as int));
            }
            i = i + 1;
        }
        assert(txm.0.subrange(0, ni as int) =~= txm.0);
        let ghost mid = utxos@;
        let no = txs[t].outputs.len();
        let mut o: usize = 0;
        while o < no
            invariant
                utxos.wf(),
                t < n,
                n == tv.len(),
                n == txs@.len(),
                txm == tv[t as int],
                txm == txs@[t as int]@,
                no == txm.1.len(),
                o <= no,
                utxos@ == add_outputs(mid, txm.1.subrange(0, o as int)),
            decreases no - o,
        {
            let out = txs[t].outputs[o];
            let h = out.hash();
            utxos.insert(h.0, out);
            proof {
                assert(txm.1.subrange(0, o + 1).drop_last() =~= txm.1.subrange(0, o as int));
            }
            o = o + 1;
        }
        assert(txm.1.subrange(0, no as int) =~= txm.1);
        proof {
            assert(tv.subrange(0, t + 1).drop_last() =~= tv.subrange(0, t as int));
        }
        t = t + 1;
    }
    assert(tv.subrange(0, n as int) =~= tv);
}

/// The error `add_block` answers a refused block with: the first check that fails.
pub open spec fn add_block_error(chain: Seq<BlockModel>, utxos: Map<crate::sha256::Hash, TransactionOutput>, b: BlockModel, e: BtcError) -> bool {
    if !prev_link_ok(chain, b) {
        e is InvalidBlock
    } else if !meets_target(b.0) {
        e is InvalidBlock
    } else if merkle_root_of(b.1) != b.0.merkle_root {
        e is InvalidMerkleRoot
    } else if chain.len() > 0 && !timestamp_after(chain, b) {
        e is InvalidBlock
    } else if !coinbase_valid(b.1, utxos, chain.len() as u64) {
        e is InvalidTransaction
    } else {
        e is InvalidSignature
    }
}

/// The hashes of one more transaction are the hashes before it and its own.
pub proof fn lemma_block_txids_step(txs: Seq<TxModel>, i: int)
    requires
        0 <= i < txs.len(),
    ensures
        block_txids(txs.subrange(0, i + 1)) == block_txids(txs.subrange(0, i)).insert(txid_of(txs[i]).0),
{
    let s1 = block_txids(txs.subrange(0, i));
    let s2 = block_txids(txs.subrange(0, i + 1));
    let h = txid_of(txs[i]).0;
    assert forall|x: crate::sha256::Hash| s2.contains(x) implies s1.insert(h).contains(x) by {
        let j = choose|j: int| 0 <= j < i + 1 && #[trigger] txid_of(txs.subrange(0, i + 1)[j]).0 == x;
        if j < i {
            assert(txs.subrange(0, i)[j] == txs.subrange(0, i + 1)[j]);
        }
    }
    assert forall|x: crate::sha256::Hash| s1.insert(h).contains(x) implies s2.contains(x) by {
        if x == h {
            assert(txid_of(txs.subrange(0, i + 1)[i]).0 == x);
        } else {
            let j = choose|j: int| 0 <= j < i && #[trigger] txid_of(txs.subrange(0, i)[j]).0 == x;
            assert(txs.subrange(0, i)[j] == txs.subrange(0, i + 1)[j]);
        }
    }
    assert(s2 =~= s1.insert(h));
}


/// The target scaled in proportion to the interval from `start` to `end` and kept within a
/// factor of four of the old target.
fn retarget_clamped(target: &U256, start: &Timestamp, end: &Timestamp) -> (r: U256)
    requires
        target.value() * 4 < u256_modulus(),
    ensures
        r.value() == clamped_target(target.value(), *start, *end),
{
    let ghost t = target.value();
    proof {
        crate::u256::lemma_value_bounds(*target);
    }
    let lo = target.div_u64(4);
    let hi = target.mul_u64(4);
    let secs = end.seconds_between(start);
    if secs <= 0 {
        return lo;
    }
    if secs >= 2000 {
        proof {
            let d = secs as int;
            assert(t * d >= t * 2000) by (nonlinear_arith)
                requires
                    t >= 0,
                    d >= 2000,
            ;
            vstd::arithmetic::div_mod::lemma_div_is_ordered(t * 2000, t * d, 500);
            assert((t * 2000) / 500 == t * 4);
        }
        return hi;
    }
    let d = secs as u64;
    let qr = target.div_rem_u64(500);
    let q = qr.0;
    let rem = qr.1;
    proof {
        let di = d as int;
        let qv = q.value();
        vstd::arithmetic::div_mod::lemma_fundamental_div_mod(t, 500);
        assert(t == 500 * qv + rem);
        assert(t * di == rem * di + (qv * di) * 500) by (nonlinear_arith)
            requires
                t == 500 * qv + rem,
        ;
        vstd::arithmetic::div_mod::lemma_hoist_over_denominator(rem * di, qv * di, 500);
        assert((rem * di) / 500 + qv * di == (t * di) / 500);
        assert(t * di <= t * 2000) by (nonlinear_arith)
            requires
                t >= 0,
                di < 2000,
        ;
        vstd::arithmetic::div_mod::lemma_div_is_ordered(t * di, t * 2000, 500);
        assert((t * 2000) / 500 == t * 4);
        assert(rem * di >= 0) by (nonlinear_arith)
            requires
                rem >= 0,
                di >= 0,
        ;
        vstd::arithmetic::div_mod::lemma_div_pos_is_pos(rem * di, 500);
        assert(rem * di < 500 * 2000) by (nonlinear_arith)
            requires
                0 <= rem < 500,
                0 < di < 2000,
        ;
    }
    let qd = q.mul_u64(d);
    let extra: u64 = (rem * d) / 500;
    let scaled = qd.add_u64(extra);
    proof {
        assert(lo.value() <= hi.value()) by (nonlinear_arith)
            requires
                lo.value() == t / 4,
                hi.value() == t * 4,
                t >= 0,
        ;
    }
    scaled.clamp(lo, hi)
}

impl Blockchain {
    /// The blocks of the chain, oldest first.
    pub closed spec fn chain(&self) -> Seq<BlockModel> {
        block_views(self.blocks@)
    }

    /// The current proof-of-work target.
    pub closed spec fn current_target(&self) -> U256 {
        self.target
    }

    /// The unspent outputs, by hash.
    pub closed spec fn utxo_map(&self) -> Map<crate::sha256::Hash, TransactionOutput> {
        self.utxos@
    }

    /// The mempool, by transaction hash.
    pub closed spec fn mempool_map(&self) -> Map<crate::sha256::Hash, EntryModel> {
        self.mempool@
    }

    /// For each output that a mempool transaction spends, that transaction's hash.
    pub closed spec fn pending_map(&self) -> Map<crate::sha256::Hash, Txid> {
        self.pending_spends@
    }

    /// The three tables are well formed.
    pub closed spec fn wf(&self) -> bool {
        &&& self.utxos.wf()
        &&& self.mempool.wf()
        &&& self.pending_spends.wf()
    }

    /// An empty chain at the minimum proof-of-work target.
    pub fn new() -> (r: Self)
        ensures
            r.wf(),
            r.chain() == Seq::<BlockModel>::empty(),
            r.current_target() == crate::spec_min_target(),
            r.utxo_map() == Map::<crate::sha256::Hash, TransactionOutput>::empty(),
            r.mempool_map() == Map::<crate::sha256::Hash, EntryModel>::empty(),
            r.pending_map() == Map::<crate::sha256::Hash, Txid>::empty(),
    {
        let r = Blockchain {
            blocks: Vec::new(),
            target: crate::min_target(),
            mempool: LookupTable::new(),
            utxos: LookupTable::new(),
            pending_spends: LookupTable::new(),
        };
        assert(r.chain() =~= Seq::<BlockModel>::empty());
        r
    }

    /// A chain read back from storage: its blocks, target and unspent outputs, with an
    /// empty mempool.
    pub fn from_parts(blocks: Vec<Block>, target: U256, utxos: LookupTable<TransactionOutput>) -> (r: Self)
        requires
            utxos.wf(),
        ensures
            r.wf(),
            r.chain() == block_views(blocks@),
            r.current_target() == target,
            r.utxo_map() == utxos@,
            r.mempool_map() == Map::<crate::sha256::Hash, EntryModel>::empty(),
            r.pending_map() == Map::<crate::sha256::Hash, Txid>::empty(),
    {
        Blockchain {
            blocks,
            target,
            utxos,
            mempool: LookupTable::new(),
            pending_spends: LookupTable::new(),
        }
    }

    /// The number of blocks in the chain.
    pub fn block_height(&self) -> (r: u64)
        ensures
            r == self.chain().len(),
    {
        self.blocks.len() as u64
    }

    /// The blocks of the chain, oldest first.
    pub fn blocks(&self) -> (r: &Vec<Block>)
        ensures
            block_views(r@) == self.chain(),
    {
        &self.blocks
    }

    /// The current proof-of-work target.
    pub fn target(&self) -> (r: U256)
        ensures
            r == self.current_target(),
    {
        self.target
    }

    /// The unspent outputs.
    pub fn utxos(&self) -> (r: &LookupTable<TransactionOutput>)
        requires
            self.wf(),
        ensures
            r.wf(),
            r@ == self.utxo_map(),
    {
        &self.utxos
    }

    /// The mempool.
    pub fn mempool(&self) -> (r: &LookupTable<MempoolEntry>)
        requires
            self.wf(),
        ensures
            r.wf(),
            r@ == self.mempool_map(),
    {
        &self.mempool
    }

    /// A copy of the block at a height, if the chain is that long.
    pub fn block_at(&self, height: u64) -> (r: Option<Block>)
        ensures
            height < self.chain().len() ==> (r matches Some(b) && b@ == self.chain()[height as int]),
            height >= self.chain().len() ==> r is None,
    {
        if height < self.blocks.len() as u64 {
            let b = self.blocks[height as usize].clone();
            Some(b)
        } else {
            None
        }
    }

    /// Whether a block template still extends the chain's last block, or, on an empty
    /// chain, the zero hash.
    pub fn template_is_current(&self, template: &Block) -> (b: bool)
        ensures
            self.chain().len() == 0 ==> b == (template@.0.prev_block_hash.0.0.value() == 0),
            self.chain().len() > 0 ==> b == (template@.0.prev_block_hash == block_hash_of(self.chain().last())),
    {
        let tip = match self.chain_tip() {
            Some(h) => h,
            None => BlockHash::zero(),
        };
        proof {
            lemma_value_injective(tip.0.0, template.header.prev_block_hash.0.0);
        }
        template.header.prev_block_hash.same(&tip)
    }

    /// The hash of the last block, if any.
    pub fn chain_tip(&self) -> (r: Option<BlockHash>)
        ensures
            self.chain().len() == 0 ==> r is None,
            self.chain().len() > 0 ==> r == Some(block_hash_of(self.chain().last())),
    {
        let n = self.blocks.len();
        if n == 0 {
            None
        } else {
            Some(self.blocks[n - 1].hash())
        }
    }

    /// The checks of `add_block`, in order, without changing anything.
    #[verifier::spinoff_prover]
    #[verifier::rlimit(40)]
    fn check_block(&self, block: &Block) -> (r: Result<(), BtcError>)
        requires
            self.wf(),
            block_checkable(self.chain(), self.utxo_map(), block@),
        ensures
            r is Ok <==> block_accepted(self.chain(), self.utxo_map(), block@),
            r matches Err(e) ==> add_block_error(self.chain(), self.utxo_map(), block@, e),
    {
        let ghost chain = self.chain();
        let n = self.blocks.len();
        if n == 0 {
            proof {
                lemma_value_injective(block.header.prev_block_hash.0.0, U256 { l0: 0, l1: 0, l2: 0, l3: 0 });
            }
            if !block.header.prev_block_hash.0.same(&crate::sha256::Hash::zero()) {
                return Err(BtcError::InvalidBlock);
            }
        } else {
            assert(chain.last() == self.blocks@[n - 1]@);
            let last_hash = self.blocks[n - 1].hash();
            if !block.header.prev_block_hash.same(&last_hash) {
                return Err(BtcError::InvalidBlock);
            }
        }
        if !block.header.hash().matches_target(block.header.target) {
            return Err(BtcError::InvalidBlock);
        }
        let calculated_merkle_root = MerkleRoot::calculate(block.transactions.as_slice());
        assert(block.transactions@.map_values(|t: Transaction| t@) =~= block@.1);
        if !calculated_merkle_root.0.same(&block.header.merkle_root.0) {
            return Err(BtcError::InvalidMerkleRoot);
        }
        if n > 0 && block.header.timestamp.le(&self.blocks[n - 1].header.timestamp) {
            return Err(BtcError::InvalidBlock);
        }
        let height = self.block_height();
        block.verify_transactions(height, &self.utxos)
    }

    /// Whether retargeting after appending the block computes within 256 bits.
    fn retarget_safe_after(&self, block: &Block) -> (b: bool)
        ensures
            b == retarget_safe(self.chain().push(block@), self.target),
    {
        let ghost chain = self.chain().push(block@);
        let len = self.blocks.len();
        proof {
            vstd::arithmetic::div_mod::lemma_add_mod_noop(len as int, 1, crate::DIFFICULTY_UPDATE_INTERVAL as int);
        }
        if len % (crate::DIFFICULTY_UPDATE_INTERVAL as usize) != (crate::DIFFICULTY_UPDATE_INTERVAL as usize) - 1 {
            assert(!retarget_due(chain));
            return true;
        }
        self.target.checked_mul_u64(4).is_some()
    }

    /// Whether checking and appending the block reaches no computation that would panic;
    /// `add_block` may be called exactly when this holds.
    #[verifier::spinoff_prover]
    pub fn add_block_checkable(&self, block: &Block) -> (b: bool)
        requires
            self.wf(),
        ensures
            b == add_block_safe(self.chain(), self.utxo_map(), self.current_target(), block@),
    {
        let ghost chain = self.chain();
        let n = self.blocks.len();
        let linked = if n > 0 {
            assert(chain.last() == self.blocks@[n - 1]@);
            let last_hash = self.blocks[n - 1].hash();
            block.header.prev_block_hash.same(&last_hash)
        } else {
            proof {
                lemma_value_injective(block.header.prev_block_hash.0.0, U256 { l0: 0, l1: 0, l2: 0, l3: 0 });
            }
            block.header.prev_block_hash.0.same(&crate::sha256::Hash::zero())
        };
        let mined = block.header.hash().matches_target(block.header.target);
        if linked && mined {
            if block.transactions.len() == 0 {
                return false;
            }
            let root = MerkleRoot::calculate(block.transactions.as_slice());
            assert(block.transactions@.map_values(|t: Transaction| t@) =~= block@.1);
            let rooted = root.0.same(&block.header.merkle_root.0);
            let later = n == 0 || !block.header.timestamp.le(&self.blocks[n - 1].header.timestamp);
            if rooted && later {
                let height = self.block_height();
                if !block.coinbase_checkable_at(height, &self.utxos) {
                    return false;
                }
            }
        }
        assert(block_checkable(chain, self.utxo_map(), block@));
        if self.retarget_safe_after(block) {
            return true;
        }
        self.check_block(block).is_err()
    }

    /// Whether admitting the transaction reaches no computation that would panic;
    /// `add_to_mempool` may be called exactly when this holds.
    pub fn mempool_checkable(&self, tx: &Transaction) -> (b: bool)
        requires
            self.wf(),
        ensures
            b == mempool_safe(tx@, self.utxo_map(), self.mempool_map(), self.pending_map()),
    {
        let ghost utxos = self.utxos@;
        let resolved = match tx.resolve_inputs(&self.utxos) {
            Ok(v) => v,
            Err(_) => {
                return true;
            },
        };
        proof {
            lemma_resolved_values(tx@, utxos, resolved@);
        }
        let spent = spent_values(&resolved);
        let iv = match checked_sum_values(&spent) {
            Some(v) => v,
            None => {
                return false;
            },
        };
        let ov = match checked_sum_values(&tx.outputs) {
            Some(v) => v,
            None => {
                return false;
            },
        };
        assert(spent@ == spent_outputs(tx@, utxos));
        assert(iv == input_value(tx@, utxos));
        assert(sums_fit(tx@, utxos));
        if iv < ov {
            return true;
        }
        let mut j: usize = 0;
        while j < resolved.len()
            invariant
                sums_fit(tx@, utxos),
                resolves(tx@, utxos),
                utxos == self.utxos@,
                resolved@ == tx.inputs@.map_values(
                    |i: TransactionInput| (i, utxos[i.prev_transaction_output_hash.0]),
                ),
                j <= resolved@.len(),
                forall|m: int| 0 <= m < j ==> #[trigger] input_signature_ok(tx.inputs@[m], utxos),
            decreases resolved@.len() - j,
        {
            let pair = resolved[j];
            assert(pair == resolved@[j as int]);
            assert(pair.0 == tx.inputs@[j as int]);
            assert(pair.1 == utxos[pair.0.prev_transaction_output_hash.0]);
            if !pair.0.signature.verify(&pair.0.prev_transaction_output_hash.0, &pair.1.pubkey) {
                assert(!inputs_signed(tx@, utxos)) by {
                    assert(!input_signature_ok(tx@.0[j as int], utxos));
                }
                return true;
            }
            j = j + 1;
        }
        assert(inputs_signed(tx@, utxos));
        let mut k: usize = 0;
        while k < tx.inputs.len()
            invariant
                self.wf(),
                utxos == self.utxos@,
                sums_fit(tx@, utxos),
                spend_ok(tx@, utxos),
                inputs_signed(tx@, utxos),
                k <= tx@.0.len(),
                forall|m: int|
                    0 <= m < k && self.pending_spends@.contains_key(
                        (#[trigger] tx@.0[m]).prev_transaction_output_hash.0,
                    ) ==> self.mempool@.contains_key(
                        self.pending_spends@[tx@.0[m].prev_transaction_output_hash.0].0,
                    ),
            decreases tx@.0.len() - k,
        {
            let u = tx.inputs[k].prev_transaction_output_hash.0;
            assert(u == tx@.0[k as int].prev_transaction_output_hash.0);
            match self.pending_spends.get(&u) {
                Some(holder) => {
                    if !self.mempool.contains_key(&holder.0) {
                        assert(!claims_live(tx@.0, self.mempool@, self.pending_spends@));
                        return false;
                    }
                },
                None => {},
            }
            k = k + 1;
        }
        true
    }

    /// Takes the transactions of a confirmed block out of the mempool and lets go of the
    /// claims on the outputs they spend.
    fn remove_confirmed(&mut self, transactions: &Vec<Transaction>)
        requires
            old(self).wf(),
        ensures
            final(self).wf(),
            final(self).mempool@ == old(self).mempool@.remove_keys(
                block_txids(transactions@.map_values(|t: Transaction| t@)),
            ),
            final(self).pending_spends@ == old(self).pending_spends@.remove_keys(
                inputs_of(old(self).mempool@, block_txids(transactions@.map_values(|t: Transaction| t@))),
            ),
            final(self).blocks@ == old(self).blocks@,
            final(self).utxos@ == old(self).utxos@,
            final(self).target == old(self).target,
    {
        let ghost txs = transactions@.map_values(|t: Transaction| t@);
        let mut ids: Vec<crate::sha256::Hash> = Vec::new();
        let mut i: usize = 0;
        while i < transactions.len()
            invariant
                txs == transactions@.map_values(|t: Transaction| t@),
                i <= txs.len(),
                txs.len() == transactions@.len(),
                ids@.len() == i,
                forall|a: int| 0 <= a < i ==> ids@[a] == #[trigger] txid_of(txs[a]).0,
            decreases txs.len() - i,
        {
            let h = transactions[i].hash();
            assert(transactions@[i as int]@ == txs[i as int]);
            ids.push(h.0);
            i = i + 1;
        }
        proof {
            assert forall|x: crate::sha256::Hash| ids@.to_set().contains(x) <==> block_txids(txs).contains(x) by {
                if ids@.contains(x) {
                    let a = choose|a: int| 0 <= a < ids@.len() && ids@[a] == x;
                    assert(txid_of(txs[a]).0 == x);
                }
                if block_txids(txs).contains(x) {
                    let a = choose|a: int| 0 <= a < txs.len() && #[trigger] txid_of(txs[a]).0 == x;
                    assert(ids@[a] == x);
                }
            }
            assert(ids@.to_set() =~= block_txids(txs));
        }
        self.evict_entries(&ids);
    }

    /// Validates and appends a block to the chain.
    ///
    /// The first block must reference the all-zero hash, every later block the hash of the
    /// chain's last block. Every block must meet its own proof-of-work target, carry the
    /// merkle root of its transactions and hold transactions valid against the unspent
    /// outputs; a later block must also be strictly later than the last block. On success
    /// its transactions leave the mempool and their claims are let go, the block is
    /// replayed onto the unspent outputs, the block is appended and the target is adjusted
    /// if due. On failure nothing changes.
    ///
    /// The replay and the release keep two facts true across blocks: the unspent outputs
    /// are the confirmed, spendable ones (the replay of the whole chain), and every claim
    /// names a transaction still in the mempool. Without them a confirmed output would stay
    /// spendable, and a claim would outlive the transaction that made it.
    pub fn add_block(&mut self, block: Block) -> (r: Result<(), BtcError>)
        requires
            old(self).wf(),
            add_block_safe(old(self).chain(), old(self).utxo_map(), old(self).current_target(), block@),
        ensures
            final(self).wf(),
            r is Ok <==> block_accepted(old(self).chain(), old(self).utxo_map(), block@),
            r matches Err(e) ==> add_block_error(old(self).chain(), old(self).utxo_map(), block@, e),
            r is Err ==> {
                &&& final(self).chain() == old(self).chain()
                &&& final(self).current_target() == old(self).current_target()
                &&& final(self).mempool_map() == old(self).mempool_map()
            },
            r is Ok ==> {
                &&& final(self).chain() == old(self).chain().push(block@)
                &&& final(self).current_target().value() == retarget_value(
                    old(self).chain().push(block@),
                    old(self).current_target(),
                )
                &&& final(self).mempool_map() == old(self).mempool_map().remove_keys(
                    block_txids(block@.1),
                )
                &&& final(self).pending_map() == old(self).pending_map().remove_keys(
                    inputs_of(old(self).mempool_map(), block_txids(block@.1)),
                )
                &&& final(self).utxo_map() == replay_transactions(old(self).utxo_map(), block@.1)
            },
            r is Err ==> final(self).utxo_map() == old(self).utxo_map() && final(self).pending_map()
                == old(self).pending_map(),
    {
        let ghost chain = self.chain();
        match self.check_block(&block) {
            Err(e) => {
                return Err(e);
            },
            Ok(()) => {},
        }
        self.remove_confirmed(&block.transactions);
        assert(block.transactions@.map_values(|t: Transaction| t@) =~= block@.1);
        replay_into(&mut self.utxos, &block.transactions);
        let ghost bview = block@;
        self.blocks.push(block);
        assert(self.chain() =~= chain.push(bview));
        self.try_adjust_target();
        Ok(())
    }

    /// Validates and appends a block, as `add_block` does, where checking it reaches no
    /// computation that would panic; `None`, with the chain unchanged, where it would.
    pub fn submit_block(&mut self, block: Block) -> (r: Option<Result<(), BtcError>>)
        requires
            old(self).wf(),
        ensures
            final(self).wf(),
            r is None <==> !add_block_safe(
                old(self).chain(),
                old(self).utxo_map(),
                old(self).current_target(),
                block@,
            ),
            r is None ==> *final(self) == *old(self),
            r matches Some(res) ==> block_added(*old(self), *final(self), block@, res),
    {
        if !self.add_block_checkable(&block) {
            return None;
        }
        let ghost before = *self;
        let ghost bv = block@;
        let res = self.add_block(block);
        assert(block_added(before, *self, bv, res));
        Some(res)
    }

    /// Whether retargeting now computes within 256 bits; `try_adjust_target` may be
    /// called exactly when this holds.
    pub fn retarget_checkable(&self) -> (b: bool)
        ensures
            b == retarget_safe(self.chain(), self.current_target()),
    {
        let ghost chain = self.chain();
        let n = self.blocks.len();
        if n == 0 || n % (crate::DIFFICULTY_UPDATE_INTERVAL as usize) != 0 {
            return true;
        }
        self.target.checked_mul_u64(4).is_some()
    }

    /// Adjusts the proof-of-work target every `DIFFICULTY_UPDATE_INTERVAL` blocks: the
    /// target is scaled in proportion to how long the last interval took against the ideal time,
    /// kept within a factor of four of the current target, and capped at the minimum
    /// target. Does nothing when the chain length is not a multiple of the interval.
    pub fn try_adjust_target(&mut self)
        requires
            retarget_safe(old(self).chain(), old(self).current_target()),
        ensures
            final(self).current_target().value() == retarget_value(
                old(self).chain(),
                old(self).current_target(),
            ),
            final(self).chain() == old(self).chain(),
            final(self).utxo_map() == old(self).utxo_map(),
            final(self).mempool_map() == old(self).mempool_map(),
            final(self).pending_map() == old(self).pending_map(),
            final(self).wf() == old(self).wf(),
    {
        let n = self.blocks.len();
        if n == 0 || n % (crate::DIFFICULTY_UPDATE_INTERVAL as usize) != 0 {
            return;
        }
        let ghost blocks = self.chain();
        let start_block = &self.blocks[n - crate::DIFFICULTY_UPDATE_INTERVAL as usize];
        let end_block = &self.blocks[n - 1];
        assert(blocks[n - crate::DIFFICULTY_UPDATE_INTERVAL] == start_block@);
        assert(blocks[n - 1] == end_block@);
        let new_target = retarget_clamped(&self.target, &start_block.header.timestamp, &end_block.header.timestamp);
        self.target = new_target.min(crate::min_target());
    }

    /// Rebuilds the unspent outputs by replaying every block from the first onto an empty
    /// set: each transaction's inputs are removed, then its outputs are added under their
    /// hashes.
    pub fn rebuild_utxos(&mut self)
        requires
            old(self).wf(),
        ensures
            final(self).wf(),
            final(self).utxo_map() == replay_blocks(Map::empty(), old(self).chain()),
            final(self).chain() == old(self).chain(),
            final(self).current_target() == old(self).current_target(),
            final(self).mempool_map() == old(self).mempool_map(),
            final(self).pending_map() == old(self).pending_map(),
    {
        self.utxos = LookupTable::new();
        let ghost m0 = self.utxos@;
        let ghost blocks = self.chain();
        let mut b: usize = 0;
        while b < self.blocks.len()
            invariant
                self.wf(),
                blocks == self.chain(),
                b <= blocks.len(),
                self.utxos@ == replay_blocks(m0, blocks.subrange(0, b as int)),
                self.mempool@ == old(self).mempool@,
                self.pending_spends@ == old(self).pending_spends@,
                self.target == old(self).target,
            decreases blocks.len() - b,
        {
            assert(blocks[b as int] == self.blocks@[b as int]@);
            assert(self.blocks@[b as int].transactions@.map_values(|t: Transaction| t@) =~= blocks[b as int].1);
            replay_into(&mut self.utxos, &self.blocks[b].transactions);
            proof {
                assert(blocks.subrange(0, b + 1).drop_last() =~= blocks.subrange(0, b as int));
            }
            b = b + 1;
        }
        assert(blocks.subrange(0, blocks.len() as int) =~= blocks);
    }

    /// The checks of `add_to_mempool`, in order, without changing anything; on success
    /// the fee the transaction pays.
    fn admission_fee(&self, tx: &Transaction) -> (r: Result<u64, BtcError>)
        requires
            self.wf(),
            mempool_safe(tx@, self.utxos@, self.mempool@, self.pending_spends@),
        ensures
            r is Ok <==> admits(tx@, self.utxos@, self.mempool@, self.pending_spends@),
            r matches Ok(f) ==> f == tx_fee(tx@, self.utxos@),
            r matches Err(e) ==> admission_error(tx@, self.utxos@, e),
    {
        let ghost utxos = self.utxos@;
        let resolved = tx.resolve_inputs(&self.utxos)?;
        let mut j: usize = 0;
        while j < resolved.len()
            invariant
                resolves(tx@, utxos),
                utxos == self.utxos@,
                resolved@ == tx.inputs@.map_values(
                    |i: TransactionInput| (i, utxos[i.prev_transaction_output_hash.0]),
                ),
                j <= resolved@.len(),
                forall|m: int| 0 <= m < j ==> #[trigger] input_signature_ok(tx.inputs@[m], utxos),
            decreases resolved@.len() - j,
        {
            let pair = resolved[j];
            assert(pair == resolved@[j as int]);
            assert(pair.0 == tx.inputs@[j as int]);
            assert(pair.1 == utxos[pair.0.prev_transaction_output_hash.0]);
            if !pair.0.signature.verify(&pair.0.prev_transaction_output_hash.0, &pair.1.pubkey) {
                assert(!inputs_signed(tx@, utxos)) by {
                    assert(!input_signature_ok(tx@.0[j as int], utxos));
                }
                return Err(BtcError::InvalidSignature);
            }
            j = j + 1;
        }
        assert(inputs_signed(tx@, utxos));
        proof {
            lemma_resolved_values(tx@, utxos, resolved@);
        }
        let sums = tx.verified_spend(resolved)?;
        let fee = sums.0 - sums.1;
        let mut k: usize = 0;
        while k < tx.inputs.len()
            invariant
                self.wf(),
                spend_ok(tx@, utxos),
                inputs_signed(tx@, utxos),
                utxos == self.utxos@,
                claims_live(tx@.0, self.mempool@, self.pending_spends@),
                fee == tx_fee(tx@, utxos),
                k <= tx@.0.len(),
                forall|m: int|
                    0 <= m < k ==> !(self.pending_spends@.contains_key(
                        (#[trigger] tx@.0[m]).prev_transaction_output_hash.0,
                    ) && fee <= self.mempool@[self.pending_spends@[tx@.0[m].prev_transaction_output_hash.0].0].1),
            decreases tx@.0.len() - k,
        {
            let u = tx.inputs[k].prev_transaction_output_hash.0;
            assert(u == tx@.0[k as int].prev_transaction_output_hash.0);
            match self.pending_spends.get(&u) {
                Some(holder) => {
                    match self.mempool.get(&holder.0) {
                        Some(entry) => {
                            if fee <= entry.miner_fees {
                                assert(outbid(tx@.0, self.mempool@, self.pending_spends@, fee as int)) by {
                                    assert(tx@.0[k as int] == tx.inputs@[k as int]);
                                }
                                return Err(
                                    BtcError::TransactionDropped(
                                        "a pending transaction with equal or higher miner fees already spends one or more of the same UTXOs".to_owned(),
                                    ),
                                );
                            }
                        },
                        None => {
                            assert(false);
                        },
                    }
                },
                None => {},
            }
            k = k + 1;
        }
        assert(!outbid(tx@.0, self.mempool@, self.pending_spends@, fee as int));
        Ok(fee)
    }

    /// Claims every output the transaction spends for `id`, taking out of the mempool each
    /// transaction that held one of those claims. Returns the transactions taken out, with
    /// the hashes they were kept under.
    fn evict_conflicts(&mut self, tx: &Transaction, id: Txid) -> (r: (Vec<Transaction>, Ghost<Seq<crate::sha256::Hash>>))
        requires
            old(self).wf(),
            inputs_distinct(tx@.0),
        ensures
            final(self).wf(),
            final(self).pending_spends@ == claim_inputs(old(self).pending_spends@, tx@.0, id),
            final(self).mempool@ == old(self).mempool@.remove_keys(
                conflict_ids(tx@.0, old(self).pending_spends@),
            ),
            final(self).blocks@ == old(self).blocks@,
            final(self).utxos@ == old(self).utxos@,
            final(self).target == old(self).target,
            r.0@.len() == r.1@.len(),
            forall|k: int|
                0 <= k < r.1@.len() ==> {
                    &&& old(self).mempool@.contains_key(#[trigger] r.1@[k])
                    &&& conflict_ids(tx@.0, old(self).pending_spends@).contains(r.1@[k])
                    &&& r.0@[k]@ == old(self).mempool@[r.1@[k]].2
                },
            forall|c: crate::sha256::Hash|
                conflict_ids(tx@.0, old(self).pending_spends@).contains(c) && old(self).mempool@.contains_key(c)
                    ==> r.1@.contains(c),
    {
        let ghost ins = tx@.0;
        let ghost pool = self.mempool@;
        let ghost pending = self.pending_spends@;
        let ghost mut ids: Seq<crate::sha256::Hash> = Seq::empty();
        let mut evicted: Vec<Transaction> = Vec::new();
        let mut i: usize = 0;
        proof {
            assert(claim_inputs(pending, ins.subrange(0, 0), id) =~= pending);
            assert(conflict_ids(ins.subrange(0, 0), pending) =~= Set::empty());
            assert(pool.remove_keys(Set::empty()) =~= pool);
        }
        while i < tx.inputs.len()
            invariant
                self.wf(),
                ins == tx@.0,
                inputs_distinct(ins),
                i <= ins.len(),
                self.pending_spends@ == claim_inputs(pending, ins.subrange(0, i as int), id),
                self.mempool@ == pool.remove_keys(conflict_ids(ins.subrange(0, i as int), pending)),
                self.blocks@ == old(self).blocks@,
                self.utxos@ == old(self).utxos@,
                self.target == old(self).target,
                evicted@.len() == ids.len(),
                forall|k: int|
                    0 <= k < ids.len() ==> {
                        &&& pool.contains_key(#[trigger] ids[k])
                        &&& conflict_ids(ins.subrange(0, i as int), pending).contains(ids[k])
                        &&& evicted@[k]@ == pool[ids[k]].2
                    },
                forall|c: crate::sha256::Hash|
                    conflict_ids(ins.subrange(0, i as int), pending).contains(c) && pool.contains_key(c)
                        ==> ids.contains(c),
            decreases ins.len() - i,
        {
            let u = tx.inputs[i].prev_transaction_output_hash.0;
            let ghost before = conflict_ids(ins.subrange(0, i as int), pending);
            proof {
                assert(u == ins[i as int].prev_transaction_output_hash.0);
                lemma_distinct_not_spent_before(ins, i as int);
                lemma_claim_step(pending, ins, i as int, id);
                lemma_conflict_step(pending, ins, i as int);
            }
            let claimant: Option<Txid> = match self.pending_spends.get(&u) {
                Some(t) => Some(*t),
                None => None,
            };
            match claimant {
                Some(t) => {
                    assert(pending.contains_key(u) && pending[u] == t);
                    match self.mempool.remove(&t.0) {
                        Some(entry) => {
                            proof {
                                let prev = ids;
                                ids = ids.push(t.0);
                                assert forall|x: crate::sha256::Hash| prev.contains(x) implies ids.contains(x) by {
                                    let a = choose|a: int| 0 <= a < prev.len() && prev[a] == x;
                                    assert(ids[a] == x);
                                }
                                assert(ids[ids.len() - 1] == t.0);
                            }
                            evicted.push(entry.transaction);
                        },
                        None => {},
                    }
                    proof {
                        assert(pool.remove_keys(before).remove(t.0) =~= pool.remove_keys(before.insert(t.0)));
                    }
                },
                None => {
                    assert(!pending.contains_key(u));
                },
            }
            self.pending_spends.insert(u, id);
            i = i + 1;
        }
        proof {
            assert(ins.subrange(0, ins.len() as int) =~= ins);
        }
        (evicted, Ghost(ids))
    }

    /// Lets go of the claims on the outputs the evicted transactions spent, but for those
    /// the transaction `id` now holds.
    fn release_evicted(&mut self, evicted: &Vec<Transaction>, id: Txid)
        requires
            old(self).wf(),
        ensures
            final(self).wf(),
            final(self).pending_spends@ == release_claims(
                old(self).pending_spends@,
                inputs_of_txs(tx_views(evicted@)),
                id,
            ),
            final(self).mempool@ == old(self).mempool@,
            final(self).blocks@ == old(self).blocks@,
            final(self).utxos@ == old(self).utxos@,
            final(self).target == old(self).target,
    {
        let ghost q1 = self.pending_spends@;
        let ghost txs = tx_views(evicted@);
        let ghost mut done: Set<crate::sha256::Hash> = Set::empty();
        proof {
            assert(release_claims(q1, done, id) =~= q1);
        }
        let mut k: usize = 0;
        while k < evicted.len()
            invariant
                self.wf(),
                txs == tx_views(evicted@),
                k <= evicted@.len(),
                self.pending_spends@ == release_claims(q1, done, id),
                forall|v: crate::sha256::Hash| done.contains(v) ==> inputs_of_txs(txs).contains(v),
                forall|a: int, j: int|
                    0 <= a < k && 0 <= j < txs[a].0.len() ==> done.contains(
                        (#[trigger] txs[a].0[j]).prev_transaction_output_hash.0,
                    ),
                self.mempool@ == old(self).mempool@,
                self.blocks@ == old(self).blocks@,
                self.utxos@ == old(self).utxos@,
                self.target == old(self).target,
            decreases evicted@.len() - k,
        {
            let n = evicted[k].inputs.len();
            assert(txs[k as int] == evicted@[k as int]@);
            let mut j: usize = 0;
            while j < n
                invariant
                    self.wf(),
                    txs == tx_views(evicted@),
                    k < evicted@.len(),
                    n == txs[k as int].0.len(),
                    txs[k as int] == evicted@[k as int]@,
                    j <= n,
                    self.pending_spends@ == release_claims(q1, done, id),
                    forall|v: crate::sha256::Hash| done.contains(v) ==> inputs_of_txs(txs).contains(v),
                    forall|a: int, m: int|
                        0 <= a < k && 0 <= m < txs[a].0.len() ==> done.contains(
                            (#[trigger] txs[a].0[m]).prev_transaction_output_hash.0,
                        ),
                    forall|m: int|
                        0 <= m < j ==> done.contains(
                            (#[trigger] txs[k as int].0[m]).prev_transaction_output_hash.0,
                        ),
                    self.mempool@ == old(self).mempool@,
                    self.blocks@ == old(self).blocks@,
                    self.utxos@ == old(self).utxos@,
                    self.target == old(self).target,
                decreases n - j,
            {
                let v = evicted[k].inputs[j].prev_transaction_output_hash.0;
                assert(v == txs[k as int].0[j as int].prev_transaction_output_hash.0);
                let keep = match self.pending_spends.get(&v) {
                    Some(t) => t.same(&id),
                    None => false,
                };
                if !keep {
                    self.pending_spends.remove(&v);
                }
                proof {
                    assert(spends(txs[k as int].0, v));
                    assert(inputs_of_txs(txs).contains(v));
                    done = done.insert(v);
                    assert(self.pending_spends@ =~= release_claims(q1, done, id));
                }
                j = j + 1;
            }
            k = k + 1;
        }
        proof {
            assert forall|v: crate::sha256::Hash| inputs_of_txs(txs).contains(v) implies done.contains(v) by {
                let a = choose|a: int| 0 <= a < txs.len() && #[trigger] spends(txs[a].0, v);
                let m = choose|m: int|
                    0 <= m < txs[a].0.len() && (#[trigger] txs[a].0[m]).prev_transaction_output_hash.0 == v;
                assert(done.contains(txs[a].0[m].prev_transaction_output_hash.0));
            }
            assert(done =~= inputs_of_txs(txs));
        }
    }

    /// Validates a transaction and admits it into the mempool at time `now`.
    ///
    /// Its inputs must resolve against the unspent outputs and be signed by their owners,
    /// and it must spend at least what it creates. A transaction that claims an output
    /// already claimed by a mempool transaction must pay a strictly higher fee; it then
    /// evicts every such transaction, the claims of the evicted transactions on other
    /// outputs are let go, and it is kept with its fee. On failure nothing changes.
    pub fn add_to_mempool_at(&mut self, tx: Transaction, now: Timestamp) -> (r: Result<(), BtcError>)
        requires
            old(self).wf(),
            mempool_safe(tx@, old(self).utxo_map(), old(self).mempool_map(), old(self).pending_map()),
        ensures
            final(self).wf(),
            final(self).chain() == old(self).chain(),
            final(self).current_target() == old(self).current_target(),
            final(self).utxo_map() == old(self).utxo_map(),
            r is Ok <==> admits(tx@, old(self).utxo_map(), old(self).mempool_map(), old(self).pending_map()),
            r matches Err(e) ==> admission_error(tx@, old(self).utxo_map(), e),
            r is Err ==> final(self).mempool_map() == old(self).mempool_map() && final(self).pending_map()
                == old(self).pending_map(),
            r is Ok ==> final(self).mempool_map() == pool_after_admission(
                tx@,
                old(self).utxo_map(),
                old(self).mempool_map(),
                old(self).pending_map(),
                now,
            ),
            r is Ok ==> final(self).pending_map() == claims_after_admission(
                tx@,
                old(self).mempool_map(),
                old(self).pending_map(),
            ),
    {
        let ghost pool = self.mempool@;
        let ghost pending = self.pending_spends@;
        let fee = match self.admission_fee(&tx) {
            Ok(f) => f,
            Err(e) => {
                return Err(e);
            },
        };
        let id = tx.hash();
        let (evicted, Ghost(ids)) = self.evict_conflicts(&tx, id);
        self.release_evicted(&evicted, id);
        proof {
            let conflicts = conflict_ids(tx@.0, pending);
            let txs = tx_views(evicted@);
            assert forall|v: crate::sha256::Hash| inputs_of_txs(txs).contains(v) implies inputs_of(
                pool,
                conflicts,
            ).contains(v) by {
                let a = choose|a: int| 0 <= a < txs.len() && #[trigger] spends(txs[a].0, v);
                assert(pool.contains_key(ids[a]));
                assert(txs[a] == pool[ids[a]].2);
            }
            assert forall|v: crate::sha256::Hash| inputs_of(pool, conflicts).contains(v) implies inputs_of_txs(
                txs,
            ).contains(v) by {
                let c = choose|c: crate::sha256::Hash|
                    conflicts.contains(c) && pool.contains_key(c) && #[trigger] spends(pool[c].2.0, v);
                assert(ids.contains(c));
                let a = choose|a: int| 0 <= a < ids.len() && ids[a] == c;
                assert(pool.contains_key(ids[a]));
                assert(txs[a] == pool[c].2);
            }
            assert(inputs_of_txs(txs) =~= inputs_of(pool, conflicts));
        }
        self.mempool.insert(id.0, MempoolEntry::new(now, fee, tx));
        Ok(())
    }

    /// Validates a transaction and admits it into the mempool, stamped with the current
    /// time; see `add_to_mempool_at`.
    pub fn add_to_mempool(&mut self, tx: Transaction) -> (r: Result<(), BtcError>)
        requires
            old(self).wf(),
            mempool_safe(tx@, old(self).utxo_map(), old(self).mempool_map(), old(self).pending_map()),
        ensures
            final(self).wf(),
            final(self).chain() == old(self).chain(),
            final(self).current_target() == old(self).current_target(),
            final(self).utxo_map() == old(self).utxo_map(),
            r is Ok <==> admits(tx@, old(self).utxo_map(), old(self).mempool_map(), old(self).pending_map()),
            r matches Err(e) ==> admission_error(tx@, old(self).utxo_map(), e),
            r is Err ==> final(self).mempool_map() == old(self).mempool_map() && final(self).pending_map()
                == old(self).pending_map(),
            r is Ok ==> final(self).mempool_map() == pool_after_admission(
                tx@,
                old(self).utxo_map(),
                old(self).mempool_map(),
                old(self).pending_map(),
                final(self).mempool_map()[txid_of(tx@).0].0,
            ),
            r is Ok ==> final(self).pending_map() == claims_after_admission(
                tx@,
                old(self).mempool_map(),
                old(self).pending_map(),
            ),
    {
        let now = crate::time::now();
        self.add_to_mempool_at(tx, now)
    }


    /// Validates and admits a transaction, as `add_to_mempool` does, where checking it
    /// reaches no computation that would panic; `None`, with the chain unchanged, where it
    /// would. The entry is stamped with the current time.
    pub fn submit_transaction(&mut self, tx: Transaction) -> (r: Option<Result<(), BtcError>>)
        requires
            old(self).wf(),
        ensures
            final(self).wf(),
            r is None <==> !mempool_safe(
                tx@,
                old(self).utxo_map(),
                old(self).mempool_map(),
                old(self).pending_map(),
            ),
            r is None ==> *final(self) == *old(self),
            r matches Some(res) ==> exists|now: Timestamp|
                transaction_added(*old(self), *final(self), tx@, now, res),
    {
        if !self.mempool_checkable(&tx) {
            return None;
        }
        let ghost before = *self;
        let ghost tv = tx@;
        let res = self.add_to_mempool(tx);
        let ghost stamp = self.mempool_map()[txid_of(tv).0].0;
        assert(transaction_added(before, *self, tv, stamp, res));
        Some(res)
    }

    /// The hashes of the mempool transactions that have expired at `now`.
    fn expired_entries(&self, now: Timestamp) -> (r: Vec<crate::sha256::Hash>)
        requires
            self.wf(),
        ensures
            forall|x: crate::sha256::Hash| r@.contains(x) <==> expired_ids(self.mempool@, now).contains(x),
    {
        let ghost pool = self.mempool@;
        proof {
            self.mempool.lemma_view();
        }
        let n = self.mempool.len();
        let mut stale: Vec<crate::sha256::Hash> = Vec::new();
        let mut i: usize = 0;
        while i < n
            invariant
                self.wf(),
                pool == self.mempool@,
                n == self.mempool.key_seq().len(),
                i <= n,
                forall|a: int| 0 <= a < stale@.len() ==> expired_ids(pool, now).contains(#[trigger] stale@[a]),
                forall|p: int|
                    0 <= p < i && expired(pool[self.mempool.key_seq()[p]], now) ==> stale@.contains(
                        #[trigger] self.mempool.key_seq()[p],
                    ),
            decreases n - i,
        {
            proof {
                self.mempool.lemma_view();
            }
            let k = self.mempool.key_at(i);
            let e = self.mempool.value_at(i);
            assert(pool[k] == e@);
            let ghost prev = stale@;
            if now.nanos_between(&e.time_added) > 600_000_000_000i128 {
                stale.push(k);
                proof {
                    assert forall|x: crate::sha256::Hash| prev.contains(x) implies stale@.contains(x) by {
                        let a = choose|a: int| 0 <= a < prev.len() && prev[a] == x;
                        assert(stale@[a] == x);
                    }
                    assert(stale@[stale@.len() - 1] == k);
                }
            }
            i = i + 1;
        }
        proof {
            self.mempool.lemma_view();
            assert forall|x: crate::sha256::Hash| expired_ids(pool, now).contains(x) implies stale@.contains(x) by {
                let p = self.mempool.key_seq().index_of(x);
                assert(self.mempool.key_seq()[p] == x);
            }
        }
        stale
    }

    /// Takes the listed transactions out of the mempool and lets go of every claim on an
    /// output that one of them spends.
    fn evict_entries(&mut self, ids: &Vec<crate::sha256::Hash>)
        requires
            old(self).wf(),
        ensures
            final(self).wf(),
            final(self).mempool@ == old(self).mempool@.remove_keys(ids@.to_set()),
            final(self).pending_spends@ == old(self).pending_spends@.remove_keys(
                inputs_of(old(self).mempool@, ids@.to_set()),
            ),
            final(self).blocks@ == old(self).blocks@,
            final(self).utxos@ == old(self).utxos@,
            final(self).target == old(self).target,
    {
        let ghost pool = self.mempool@;
        let ghost pending = self.pending_spends@;
        let ghost gone = ids@.to_set();
        let ghost mut removed: Set<crate::sha256::Hash> = Set::empty();
        proof {
            assert(pool.remove_keys(removed) =~= pool);
            assert(inputs_of(pool, removed) =~= Set::empty());
            assert(pending.remove_keys(Set::empty()) =~= pending);
        }
        let mut k: usize = 0;
        while k < ids.len()
            invariant
                self.wf(),
                forall|x: crate::sha256::Hash| ids@.contains(x) <==> gone.contains(x),
                gone == ids@.to_set(),
                k <= ids@.len(),
                forall|a: int| 0 <= a < k ==> removed.contains(#[trigger] ids@[a]),
                forall|x: crate::sha256::Hash| removed.contains(x) ==> gone.contains(x),
                self.mempool@ == pool.remove_keys(removed),
                self.pending_spends@ == pending.remove_keys(inputs_of(pool, removed)),
                self.blocks@ == old(self).blocks@,
                self.utxos@ == old(self).utxos@,
                self.target == old(self).target,
            decreases ids@.len() - k,
        {
            let id = ids[k];
            assert(ids@.contains(ids@[k as int]));
            assert(gone.contains(id));
            match self.mempool.remove(&id) {
                Some(entry) => {
                    let ghost ins = entry.transaction.inputs@;
                    assert(ins == pool[id].2.0);
                    let m = entry.transaction.inputs.len();
                    let mut j: usize = 0;
                    proof {
                        assert(spent_by(ins.subrange(0, 0)) =~= Set::empty());
                        assert(inputs_of(pool, removed).union(Set::empty()) =~= inputs_of(pool, removed));
                    }
                    while j < m
                        invariant
                            self.wf(),
                            m == ins.len(),
                            ins == entry.transaction.inputs@,
                            j <= m,
                            self.pending_spends@ == pending.remove_keys(
                                inputs_of(pool, removed).union(spent_by(ins.subrange(0, j as int))),
                            ),
                            self.mempool@ == pool.remove_keys(removed).remove(id),
                            self.blocks@ == old(self).blocks@,
                            self.utxos@ == old(self).utxos@,
                            self.target == old(self).target,
                        decreases m - j,
                    {
                        let u = entry.transaction.inputs[j].prev_transaction_output_hash.0;
                        self.pending_spends.remove(&u);
                        proof {
                            assert forall|v: crate::sha256::Hash| #[trigger] spends(ins.subrange(0, j + 1), v) == (spends(
                                ins.subrange(0, j as int),
                                v,
                            ) || ins[j as int].prev_transaction_output_hash.0 == v) by {
                                lemma_spends_step(ins, j as int, v);
                            }
                            assert(spent_by(ins.subrange(0, j + 1)) =~= spent_by(ins.subrange(0, j as int)).insert(u));
                            assert(pending.remove_keys(
                                inputs_of(pool, removed).union(spent_by(ins.subrange(0, j + 1))),
                            ) =~= pending.remove_keys(
                                inputs_of(pool, removed).union(spent_by(ins.subrange(0, j as int))),
                            ).remove(u));
                        }
                        j = j + 1;
                    }
                    proof {
                        assert(ins.subrange(0, m as int) =~= ins);
                        lemma_inputs_of_insert(pool, removed, id);
                        assert(pool.remove_keys(removed).remove(id) =~= pool.remove_keys(removed.insert(id)));
                        removed = removed.insert(id);
                    }
                },
                None => {
                    proof {
                        assert(removed.contains(id) || !pool.contains_key(id));
                        assert(pool.remove_keys(removed.insert(id)) =~= pool.remove_keys(removed));
                        assert(inputs_of(pool, removed.insert(id)) =~= inputs_of(pool, removed));
                        removed = removed.insert(id);
                    }
                },
            }
            k = k + 1;
        }
        proof {
            assert forall|x: crate::sha256::Hash| gone.contains(x) implies removed.contains(x) by {
                assert(ids@.contains(x));
                let a = choose|a: int| 0 <= a < ids@.len() && ids@[a] == x;
                assert(removed.contains(ids@[a]));
            }
            assert(removed =~= gone);
        }
    }

    /// Evicts the transactions that have waited in the mempool longer than
    /// `MAX_MEMPOOL_TRANSACTION_AGE` seconds at `now`, and lets go of every claim their
    /// inputs held.
    pub fn cleanup_mempool_at(&mut self, now: Timestamp)
        requires
            old(self).wf(),
        ensures
            final(self).wf(),
            final(self).mempool_map() == old(self).mempool_map().remove_keys(
                expired_ids(old(self).mempool_map(), now),
            ),
            final(self).pending_map() == old(self).pending_map().remove_keys(
                inputs_of(old(self).mempool_map(), expired_ids(old(self).mempool_map(), now)),
            ),
            final(self).chain() == old(self).chain(),
            final(self).current_target() == old(self).current_target(),
            final(self).utxo_map() == old(self).utxo_map(),
    {
        let ghost pool = self.mempool@;
        let stale = self.expired_entries(now);
        self.evict_entries(&stale);
        assert(stale@.to_set() =~= expired_ids(pool, now));
    }

    /// Evicts the transactions that have waited in the mempool too long, measured
    /// against the current time; see `cleanup_mempool_at`.
    pub fn cleanup_mempool(&mut self)
        requires
            old(self).wf(),
        ensures
            final(self).wf(),
            exists|now: Timestamp|
                final(self).mempool_map() == old(self).mempool_map().remove_keys(
                    #[trigger] expired_ids(old(self).mempool_map(), now),
                ) && final(self).pending_map() == old(self).pending_map().remove_keys(
                    inputs_of(old(self).mempool_map(), expired_ids(old(self).mempool_map(), now)),
                ),
            final(self).chain() == old(self).chain(),
            final(self).current_target() == old(self).current_target(),
            final(self).utxo_map() == old(self).utxo_map(),
    {
        let now = crate::time::now();
        self.cleanup_mempool_at(now);
    }


    /// The positions of the mempool's entries from the highest fee to the lowest, with the
    /// hashes they are kept under.
    fn fee_ranking(&self) -> (r: (Vec<usize>, Ghost<Seq<crate::sha256::Hash>>))
        requires
            self.wf(),
        ensures
            r.0@.len() == r.1@.len(),
            r.1@.len() == self.mempool.key_seq().len(),
            forall|a: int|
                0 <= a < r.0@.len() ==> {
                    &&& #[trigger] r.0@[a] < self.mempool.key_seq().len()
                    &&& r.1@[a] == self.mempool.key_seq()[r.0@[a] as int]
                    &&& self.mempool@[r.1@[a]] == self.mempool.value_seq()[r.0@[a] as int]
                },
            by_fee(self.mempool@, r.1@),
    {
        let ghost pool = self.mempool@;
        proof {
            self.mempool.lemma_view();
        }
        let n = self.mempool.len();
        let mut fees: Vec<u64> = Vec::new();
        let mut p: usize = 0;
        while p < n
            invariant
                self.wf(),
                n == self.mempool.key_seq().len(),
                p <= n,
                fees@.len() == p,
                forall|a: int| 0 <= a < p ==> #[trigger] fees@[a] == self.mempool.value_seq()[a].1,
            decreases n - p,
        {
            let e = self.mempool.value_at(p);
            fees.push(e.miner_fees);
            p = p + 1;
        }
        let order = sort_by_fee(&fees);
        proof {
            self.mempool.lemma_view();
        }
        let ghost keys = self.mempool.key_seq();
        let ghost vals = self.mempool.value_seq();
        let ghost ks = Seq::new(n as nat, |a: int| keys[order@[a] as int]);
        proof {
            assert forall|a: int| 0 <= a < n implies pool[#[trigger] ks[a]] == vals[order@[a] as int] by {
                assert(ks[a] == keys[order@[a] as int]);
            }
            assert(ks.no_duplicates()) by {
                assert forall|x: int, y: int| 0 <= x < n && 0 <= y < n && x != y implies ks[x] != ks[y] by {
                    assert(order@[x] != order@[y]);
                }
            }
            assert forall|x: crate::sha256::Hash| ks.to_set().contains(x) implies pool.dom().contains(x) by {
                let q = choose|q: int| 0 <= q < ks.len() && ks[q] == x;
                assert(keys.contains(keys[order@[q] as int]));
            }
            ks.unique_seq_to_set();
            vstd::set_lib::lemma_subset_equality(ks.to_set(), pool.dom());
            assert forall|x: int, y: int| 0 <= x < y < ks.len() implies #[trigger] pool[ks[x]].1 >= #[trigger] pool[ks[y]].1 by {
                assert(pool[ks[x]] == vals[order@[x] as int]);
                assert(pool[ks[y]] == vals[order@[y] as int]);
                assert(fees@[order@[x] as int] >= fees@[order@[y] as int]);
            }
        }
        (order, Ghost(ks))
    }

    /// The mempool's transactions from the highest fee to the lowest; a miner takes them
    /// from the front. Transactions with equal fees come in no promised order.
    pub fn sort_mempool(&mut self) -> (r: Vec<Transaction>)
        requires
            old(self).wf(),
        ensures
            *final(self) == *old(self),
            exists|ks: Seq<crate::sha256::Hash>| #[trigger] fee_order(old(self).mempool_map(), ks, tx_views(r@)),
    {
        let (order, Ghost(ks)) = self.fee_ranking();
        let n = order.len();
        let mut out: Vec<Transaction> = Vec::new();
        let mut a: usize = 0;
        while a < n
            invariant
                self.wf(),
                n == order@.len(),
                n == ks.len(),
                forall|q: int|
                    0 <= q < n ==> {
                        &&& #[trigger] order@[q] < self.mempool.key_seq().len()
                        &&& self.mempool@[ks[q]] == self.mempool.value_seq()[order@[q] as int]
                    },
                a <= n,
                out@.len() == a,
                forall|q: int| 0 <= q < a ==> #[trigger] out@[q]@ == self.mempool@[ks[q]].2,
            decreases n - a,
        {
            let e = self.mempool.value_at(order[a]);
            out.push(e.transaction.clone());
            a = a + 1;
        }
        assert(fee_order(self.mempool@, ks, tx_views(out@)));
        assert(fee_order(old(self).mempool_map(), ks, tx_views(out@)));
        out
    }

    /// A block for a miner to work on at time `now`: a coinbase paying `pubkey` the block
    /// reward and the fees of the transactions it carries, followed by up to
    /// `BLOCK_TRANSACTION_CAP` mempool transactions with the highest fees; it extends the
    /// chain's last block at the current target, with nonce zero. Fails when the reward and
    /// fees cannot be computed in 64 bits.
    pub fn block_template_at(&self, pubkey: PublicKey, now: Timestamp, unique_id: u128) -> (r: Result<Block, BtcError>)
        requires
            self.wf(),
        ensures
            exists|ks: Seq<crate::sha256::Hash>|
                #[trigger] by_fee(self.mempool_map(), ks) && template_built(
                    self.chain(),
                    self.current_target(),
                    self.mempool_map(),
                    ks,
                    pubkey,
                    now,
                    unique_id,
                    r,
                ),
    {
        let (order, Ghost(ks)) = self.fee_ranking();
        let height = self.block_height();
        let ghost chain = self.chain();
        let ghost pool = self.mempool@;
        let n = order.len();
        let m = if n < crate::BLOCK_TRANSACTION_CAP {
            n
        } else {
            crate::BLOCK_TRANSACTION_CAP
        };
        if height / crate::HALVING_INTERVAL >= 64 {
            let r = Err(BtcError::InvalidTransaction);
            assert(by_fee(self.mempool_map(), ks) && template_built(
                self.chain(),
                self.current_target(),
                self.mempool_map(),
                ks,
                pubkey,
                now,
                unique_id,
                r,
            ));
            return r;
        }
        let reward = Block::block_reward(height);
        let mut picked: Vec<Transaction> = Vec::new();
        let mut fees: u64 = 0;
        let mut a: usize = 0;
        while a < m
            invariant
                self.wf(),
                pool == self.mempool@,
                n == order@.len(),
                n == ks.len(),
                m == template_count(n as int),
                forall|q: int|
                    0 <= q < n ==> {
                        &&& #[trigger] order@[q] < self.mempool.key_seq().len()
                        &&& self.mempool@[ks[q]] == self.mempool.value_seq()[order@[q] as int]
                    },
                a <= m,
                picked@.len() == a,
                forall|q: int| 0 <= q < a ==> #[trigger] picked@[q]@ == pool[ks[q]].2,
                fees == fee_sum(pool, ks, a as int),
                reward == block_reward_at(height),
                by_fee(self.mempool@, ks),
                chain == self.chain(),
                height == chain.len(),
                height / crate::HALVING_INTERVAL < 64,
            decreases m - a,
        {
            let e = self.mempool.value_at(order[a]);
            assert(e@ == pool[ks[a as int]]);
            match fees.checked_add(e.miner_fees) {
                Some(f) => {
                    fees = f;
                },
                None => {
                    proof {
                        assert(fee_sum(pool, ks, a as int + 1) == fees + e.miner_fees);
                        lemma_fee_sum_grows(pool, ks, a as int + 1, m as int);
                        let k = (height / crate::HALVING_INTERVAL) as nat;
                        lemma_pow2_pos(k);
                        vstd::arithmetic::div_mod::lemma_div_pos_is_pos(
                            (crate::INITIAL_REWARD * 100_000_000) as int,
                            pow2(k) as int,
                        );
                    }
                    let r = Err(BtcError::InvalidTransaction);
                    assert(by_fee(self.mempool_map(), ks) && template_built(
                self.chain(),
                self.current_target(),
                self.mempool_map(),
                ks,
                pubkey,
                now,
                unique_id,
                r,
            ));
                    return r;
                },
            }
            picked.push(e.transaction.clone());
            a = a + 1;
        }
        let value = match reward.checked_add(fees) {
            Some(v) => v,
            None => {
                let r = Err(BtcError::InvalidTransaction);
                assert(by_fee(self.mempool_map(), ks) && template_built(
                self.chain(),
                self.current_target(),
                self.mempool_map(),
                ks,
                pubkey,
                now,
                unique_id,
                r,
            ));
                return r;
            },
        };
        let mut outputs: Vec<TransactionOutput> = Vec::new();
        outputs.push(TransactionOutput::new(value, unique_id, pubkey));
        let coinbase = Transaction::new(Vec::new(), outputs);
        let mut transactions: Vec<Transaction> = Vec::new();
        transactions.push(coinbase);
        let ghost head = transactions@;
        let ghost picked_before = picked@;
        transactions.append(&mut picked);
        let merkle_root = MerkleRoot::calculate(transactions.as_slice());
        let prev = match self.chain_tip() {
            Some(h) => h,
            None => BlockHash::zero(),
        };
        let header = BlockHeader::new(now, 0, prev, merkle_root, self.target);
        let block = Block::new(header, transactions);
        proof {
            let cb: TxModel = (Seq::empty(), seq![TransactionOutput { value, unique_id, pubkey }]);
            assert(head[0]@ =~= cb);
            assert(tx_views(block.transactions@) =~= seq![cb] + Seq::new(m as nat, |q: int| pool[ks[q]].2)) by {
                assert forall|q: int| 0 < q < block.transactions@.len() implies #[trigger] block.transactions@[q]@
                    == pool[ks[q - 1]].2 by {
                    assert(block.transactions@[q] == picked_before[q - 1]);
                }
            }
            assert(block.transactions@.map_values(|t: Transaction| t@) =~= tx_views(block.transactions@));
        }
        let r = Ok(block);
        assert(by_fee(self.mempool_map(), ks) && template_built(
                self.chain(),
                self.current_target(),
                self.mempool_map(),
                ks,
                pubkey,
                now,
                unique_id,
                r,
            ));
        r
    }

    /// A block for a miner to work on, stamped with the current time and a fresh random
    /// identifier for the coinbase output; see `block_template_at`.
    pub fn block_template(&self, pubkey: PublicKey) -> (r: Result<Block, BtcError>)
        requires
            self.wf(),
        ensures
            exists|ks: Seq<crate::sha256::Hash>, now: Timestamp, unique_id: u128|
                by_fee(self.mempool_map(), ks) && #[trigger] template_built(
                    self.chain(),
                    self.current_target(),
                    self.mempool_map(),
                    ks,
                    pubkey,
                    now,
                    unique_id,
                    r,
                ),
    {
        let now = crate::time::now();
        let unique_id = crate::types::transaction::new_unique_id();
        self.block_template_at(pubkey, now, unique_id)
    }

    /// The unspent outputs locked to a public key, each with whether a mempool transaction
    /// already claims it. They come in no promised order.
    pub fn scan_utxos(&self, key: PublicKey) -> (r: Vec<(TransactionOutput, bool)>)
        requires
            self.wf(),
        ensures
            exists|ks: Seq<crate::sha256::Hash>| #[trigger] utxo_listing(self.utxo_map(), self.pending_map(), key, ks, r@),
    {
        proof {
            self.utxos.lemma_view();
        }
        let n = self.utxos.len();
        let mut found: Vec<(TransactionOutput, bool)> = Vec::new();
        let ghost mut ks: Seq<crate::sha256::Hash> = Seq::empty();
        let ghost mut pos: Seq<int> = Seq::empty();
        let mut i: usize = 0;
        while i < n
            invariant
                self.wf(),
                n == self.utxos.key_seq().len(),
                i <= n,
                ks.len() == found@.len(),
                pos.len() == ks.len(),
                forall|a: int| 0 <= a < pos.len() ==> 0 <= #[trigger] pos[a] < i,
                forall|a: int, b: int| 0 <= a < b < pos.len() ==> #[trigger] pos[a] < #[trigger] pos[b],
                forall|a: int| 0 <= a < ks.len() ==> #[trigger] ks[a] == self.utxos.key_seq()[pos[a]],
                forall|a: int|
                    0 <= a < ks.len() ==> #[trigger] found@[a] == (self.utxos@[ks[a]], self.pending_spends@.contains_key(
                        ks[a],
                    )),
                forall|a: int| 0 <= a < ks.len() ==> self.utxos@[#[trigger] ks[a]].pubkey == key,
                forall|p: int|
                    0 <= p < i && self.utxos@[self.utxos.key_seq()[p]].pubkey == key ==> ks.contains(
                        #[trigger] self.utxos.key_seq()[p],
                    ),
            decreases n - i,
        {
            proof {
                self.utxos.lemma_view();
            }
            let k = self.utxos.key_at(i);
            let o = *self.utxos.value_at(i);
            assert(self.utxos@[k] == o);
            if o.pubkey.same(&key) {
                let primed = self.pending_spends.contains_key(&k);
                found.push((o, primed));
                proof {
                    let prev = ks;
                    ks = ks.push(k);
                    pos = pos.push(i as int);
                    assert forall|x: crate::sha256::Hash| prev.contains(x) implies ks.contains(x) by {
                        let a = choose|a: int| 0 <= a < prev.len() && prev[a] == x;
                        assert(ks[a] == x);
                    }
                    assert(ks[ks.len() - 1] == k);
                }
            }
            i = i + 1;
        }
        proof {
            self.utxos.lemma_view();
            let keys = self.utxos.key_seq();
            assert(ks.no_duplicates()) by {
                assert forall|a: int, b: int| 0 <= a < ks.len() && 0 <= b < ks.len() && a != b implies ks[a] != ks[b] by {
                    if a < b {
                        assert(pos[a] < pos[b]);
                    } else {
                        assert(pos[b] < pos[a]);
                    }
                }
            }
            assert forall|k: crate::sha256::Hash| ks.contains(k) <==> (self.utxos@.contains_key(k) && self.utxos@[k].pubkey
                == key) by {
                if ks.contains(k) {
                    let a = choose|a: int| 0 <= a < ks.len() && ks[a] == k;
                    assert(keys.contains(keys[pos[a]]));
                }
                if self.utxos@.contains_key(k) && self.utxos@[k].pubkey == key {
                    let p = keys.index_of(k);
                    assert(keys[p] == k);
                }
            }
            assert(utxo_listing(self.utxo_map(), self.pending_map(), key, ks, found@));
        }
        found
    }

}

} // verus!
