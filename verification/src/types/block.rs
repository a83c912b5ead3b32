use vstd::prelude::*;
use vstd::arithmetic::power2::{pow2, lemma2_to64, lemma_pow2_pos, lemma_pow2_strictly_increases, lemma_pow2_unfold};
use crate::codec::{put_bytes, put_u64};
use crate::error::BtcError;
use crate::sha256::BlockHash;
use crate::time::Timestamp;
use crate::types::transaction::{
    Transaction, TransactionOutput, TxModel, encode_transaction, input_value, output_value,
    checked_sum_values, resolves, spend_ok, spent_values, sum_output_values, sums_fit, spent_outputs,
};
use crate::u256::{U256, u64_be_bytes};
use crate::utils::lookup::LookupTable;
use crate::utils::merkle_tree::MerkleRoot;

verus! {

/// The part of a block that proof of work covers.
#[derive(Clone, Copy, Debug)]
pub struct BlockHeader {
    /// Timestamp of the block
    pub timestamp: Timestamp,
    /// Nonce used to mine the block
    pub nonce: u64,
    /// Hash of the previous block
    pub prev_block_hash: BlockHash,
    /// Merkle root of the block's transactions
    pub merkle_root: MerkleRoot,
    /// Target
    pub target: U256,
}

/// A header and the transactions it commits to; the first transaction is the coinbase.
pub struct Block {
    pub header: BlockHeader,
    pub transactions: Vec<Transaction>,
}

/// What a block holds: its header and its transactions.
pub type BlockModel = (BlockHeader, Seq<TxModel>);

impl View for Block {
    type V = BlockModel;

    open spec fn view(&self) -> BlockModel {
        (self.header, tx_views(self.transactions@))
    }
}

/// The views of a sequence of transactions.
pub open spec fn tx_views(s: Seq<Transaction>) -> Seq<TxModel> {
    s.map_values(|t: Transaction| t@)
}

/// The views of a sequence of blocks.
pub open spec fn block_views(s: Seq<Block>) -> Seq<BlockModel> {
    s.map_values(|b: Block| b@)
}

/// Clones a list of transactions.
pub fn clone_transactions(txs: &Vec<Transaction>) -> (r: Vec<Transaction>)
    ensures
        tx_views(r@) == tx_views(txs@),
{
    let mut r: Vec<Transaction> = Vec::new();
    let mut i: usize = 0;
    while i < txs.len()
        invariant
            i <= txs@.len(),
            r@.len() == i,
            forall|m: int| 0 <= m < i ==> #[trigger] r@[m]@ == txs@[m]@,
        decreases txs@.len() - i,
    {
        let c = txs[i].clone();
        r.push(c);
        i = i + 1;
    }
    assert(tx_views(r@) =~= tx_views(txs@));
    r
}

/// Appends the encodings of transactions, one after the other, to a buffer.
fn write_transactions(transactions: &Vec<Transaction>, out: &mut Vec<u8>)
    ensures
        final(out)@ == old(out)@ + encode_transactions(tx_views(transactions@)),
{
    let ghost txs = tx_views(transactions@);
    let ghost mid = out@;
    let mut i: usize = 0;
    assert(txs.subrange(0, 0) =~= Seq::<TxModel>::empty());
    while i < transactions.len()
        invariant
            i <= transactions@.len(),
            txs == tx_views(transactions@),
            out@ == mid + encode_transactions(txs.subrange(0, i as int)),
        decreases transactions@.len() - i,
    {
        transactions[i].write_to(out);
        proof {
            let p = txs.subrange(0, i + 1);
            assert(p.drop_last() =~= txs.subrange(0, i as int));
            assert(p.last() == transactions@[i as int]@);
        }
        i = i + 1;
    }
    assert(txs.subrange(0, txs.len() as int) =~= txs);
}

impl Clone for Block {
    fn clone(&self) -> (r: Block)
        ensures
            r@ == self@,
    {
        Block { header: self.header, transactions: clone_transactions(&self.transactions) }
    }
}

/// The bytes of a header in hashed data.
pub open spec fn encode_header(h: BlockHeader) -> Seq<u8> {
    h.timestamp.encode() + u64_be_bytes(h.nonce) + h.prev_block_hash.0.bytes()
        + h.merkle_root.0.bytes() + h.target.be_bytes()
}

/// The transactions' encodings one after the other.
pub open spec fn encode_transactions(s: Seq<TxModel>) -> Seq<u8>
    decreases s.len(),
{
    if s.len() == 0 {
        Seq::empty()
    } else {
        encode_transactions(s.drop_last()) + encode_transaction(s.last())
    }
}

/// The bytes of a block in hashed data.
pub open spec fn encode_block(b: BlockModel) -> Seq<u8> {
    encode_header(b.0) + u64_be_bytes(b.1.len() as u64) + encode_transactions(b.1)
}

/// The hash of a header.
pub open spec fn header_hash(h: BlockHeader) -> crate::sha256::Hash {
    crate::sha256::Hash::of_bytes(encode_header(h))
}

/// The hash of a whole block.
pub open spec fn block_hash_of(b: BlockModel) -> BlockHash {
    BlockHash(crate::sha256::Hash::of_bytes(encode_block(b)))
}

/// The header's hash, read as a number, is at most its target.
pub open spec fn meets_target(h: BlockHeader) -> bool {
    header_hash(h).0.value() <= h.target.value()
}

/// The header with another nonce.
pub open spec fn with_nonce(h: BlockHeader, nonce: u64) -> BlockHeader {
    BlockHeader { nonce, ..h }
}

/// The coinbase may mint at a height: 50 bitcoins in satoshis, halved once per
/// `HALVING_INTERVAL` blocks.
pub open spec fn block_reward_at(height: u64) -> int {
    (crate::INITIAL_REWARD * 100_000_000) as int / pow2((height / crate::HALVING_INTERVAL) as nat) as int
}

/// Every non-coinbase transaction before position `k` resolves and is covered by its inputs.
pub open spec fn prefix_spends_ok(txs: Seq<TxModel>, utxos: Map<crate::sha256::Hash, TransactionOutput>, k: int) -> bool {
    forall|j: int| 1 <= j < k ==> #[trigger] spend_ok(txs[j], utxos)
}

/// Every non-coinbase transaction resolves and is covered by its inputs.
pub open spec fn all_spends_ok(txs: Seq<TxModel>, utxos: Map<crate::sha256::Hash, TransactionOutput>) -> bool {
    prefix_spends_ok(txs, utxos, txs.len() as int)
}

/// The input value of the non-coinbase transactions before position `k`.
pub open spec fn fee_inputs_upto(txs: Seq<TxModel>, utxos: Map<crate::sha256::Hash, TransactionOutput>, k: int) -> int
    decreases k,
{
    if k <= 1 {
        0
    } else {
        fee_inputs_upto(txs, utxos, k - 1) + input_value(txs[k - 1], utxos)
    }
}

/// The output value of the non-coinbase transactions before position `k`.
pub open spec fn fee_outputs_upto(txs: Seq<TxModel>, k: int) -> int
    decreases k,
{
    if k <= 1 {
        0
    } else {
        fee_outputs_upto(txs, k - 1) + output_value(txs[k - 1])
    }
}

/// The fees the non-coinbase transactions leave to the miner.
pub open spec fn miner_fees_of(txs: Seq<TxModel>, utxos: Map<crate::sha256::Hash, TransactionOutput>) -> int {
    fee_inputs_upto(txs, utxos, txs.len() as int) - fee_outputs_upto(txs, txs.len() as int)
}

proof fn lemma_fee_sums_extend(txs: Seq<TxModel>, t: TxModel, utxos: Map<crate::sha256::Hash, TransactionOutput>, k: int)
    requires
        0 <= k <= txs.len(),
    ensures
        fee_inputs_upto(txs.push(t), utxos, k) == fee_inputs_upto(txs, utxos, k),
        fee_outputs_upto(txs.push(t), k) == fee_outputs_upto(txs, k),
    decreases k,
{
    if k > 1 {
        lemma_fee_sums_extend(txs, t, utxos, k - 1);
        assert(txs.push(t)[k - 1] == txs[k - 1]);
    }
}

/// A block of only its coinbase leaves no fees to the miner.
pub proof fn lemma_coinbase_only_fees(cb: TxModel, utxos: Map<crate::sha256::Hash, TransactionOutput>)
    ensures
        miner_fees_of(seq![cb], utxos) == 0,
{
}

/// The miner fees add up: one more transaction after the coinbase adds what its inputs
/// spend less what its outputs create, whatever came before it.
pub proof fn lemma_miner_fees_add_up(
    txs: Seq<TxModel>,
    t: TxModel,
    utxos: Map<crate::sha256::Hash, TransactionOutput>,
)
    requires
        txs.len() >= 1,
    ensures
        miner_fees_of(txs.push(t), utxos) == miner_fees_of(txs, utxos) + input_value(t, utxos) - output_value(t),
{
    lemma_fee_sums_extend(txs, t, utxos, txs.len() as int);
    let n = txs.len() as int;
    assert(txs.push(t)[n] == t);
    assert(fee_inputs_upto(txs.push(t), utxos, n + 1) == fee_inputs_upto(txs.push(t), utxos, n) + input_value(t, utxos));
    assert(fee_outputs_upto(txs.push(t), n + 1) == fee_outputs_upto(txs.push(t), n) + output_value(t));
}

/// Adding up the fees overflows no 64-bit word: every transaction reached while the ones
/// before it pass has sums that fit, and so do the running totals.
pub open spec fn fees_computable(txs: Seq<TxModel>, utxos: Map<crate::sha256::Hash, TransactionOutput>) -> bool {
    forall|k: int|
        1 <= k < txs.len() && prefix_spends_ok(txs, utxos, k) ==> {
            &&& sums_fit(#[trigger] txs[k], utxos)
            &&& spend_ok(txs[k], utxos) ==> fee_inputs_upto(txs, utxos, k + 1) <= u64::MAX
                && fee_outputs_upto(txs, k + 1) <= u64::MAX
        }
}

/// The coinbase comes first, spends nothing and creates something.
pub open spec fn coinbase_shape_ok(txs: Seq<TxModel>) -> bool {
    txs.len() > 0 && txs[0].0.len() == 0 && txs[0].1.len() > 0
}

/// Checking the coinbase overflows nothing and raises 2 to no power of 64 or more.
pub open spec fn coinbase_checkable(txs: Seq<TxModel>, utxos: Map<crate::sha256::Hash, TransactionOutput>, height: u64) -> bool {
    coinbase_shape_ok(txs) ==> {
        &&& fees_computable(txs, utxos)
        &&& all_spends_ok(txs, utxos) ==> {
            &&& height / crate::HALVING_INTERVAL < 64
            &&& output_value(txs[0]) <= u64::MAX
            &&& block_reward_at(height) + miner_fees_of(txs, utxos) <= u64::MAX
        }
    }
}

/// The coinbase is well formed and mints exactly the reward plus the fees.
pub open spec fn coinbase_valid(txs: Seq<TxModel>, utxos: Map<crate::sha256::Hash, TransactionOutput>, height: u64) -> bool {
    &&& coinbase_shape_ok(txs)
    &&& all_spends_ok(txs, utxos)
    &&& output_value(txs[0]) == block_reward_at(height) + miner_fees_of(txs, utxos)
}

/// An input's signature over the hash of the output it spends verifies against that
/// output's public key.
pub open spec fn input_signature_ok(i: crate::types::transaction::TransactionInput, utxos: Map<crate::sha256::Hash, TransactionOutput>) -> bool {
    i.signature.verifies(
        i.prev_transaction_output_hash.0,
        utxos[i.prev_transaction_output_hash.0].pubkey,
    )
}

/// Every input of every non-coinbase transaction is signed correctly.
pub open spec fn signatures_ok(txs: Seq<TxModel>, utxos: Map<crate::sha256::Hash, TransactionOutput>) -> bool {
    forall|k: int, j: int|
        1 <= k < txs.len() && 0 <= j < txs[k].0.len() ==> #[trigger] input_signature_ok(
            txs[k].0[j],
            utxos,
        )
}

/// The transactions of a block are valid at a height against a set of unspent outputs.
pub open spec fn transactions_valid(txs: Seq<TxModel>, utxos: Map<crate::sha256::Hash, TransactionOutput>, height: u64) -> bool {
    coinbase_valid(txs, utxos, height) && signatures_ok(txs, utxos)
}

proof fn lemma_fees_nonneg(txs: Seq<TxModel>, utxos: Map<crate::sha256::Hash, TransactionOutput>, k: int)
    requires
        prefix_spends_ok(txs, utxos, k),
        k <= txs.len(),
    ensures
        fee_inputs_upto(txs, utxos, k) >= fee_outputs_upto(txs, k),
    decreases k,
{
    if k > 1 {
        lemma_fees_nonneg(txs, utxos, k - 1);
        assert(spend_ok(txs[k - 1], utxos));
    }
}

/// The inputs resolved against a table, read back as the outputs they spend.
pub(crate) proof fn lemma_resolved_values(
    t: TxModel,
    utxos: Map<crate::sha256::Hash, TransactionOutput>,
    v: Seq<(crate::types::transaction::TransactionInput, TransactionOutput)>,
)
    requires
        v == t.0.map_values(
            |i: crate::types::transaction::TransactionInput| (i, utxos[i.prev_transaction_output_hash.0]),
        ),
    ensures
        v.map_values(|p: (crate::types::transaction::TransactionInput, TransactionOutput)| p.1)
            == spent_outputs(t, utxos),
{
    assert(v.map_values(|p: (crate::types::transaction::TransactionInput, TransactionOutput)| p.1)
        =~= spent_outputs(t, utxos));
}


/// Before the first halving the coinbase may mint 50 bitcoins, in satoshis.
pub proof fn lemma_initial_reward(height: u64)
    requires
        height < crate::HALVING_INTERVAL,
    ensures
        block_reward_at(height) == 5_000_000_000,
{
    assert(height / crate::HALVING_INTERVAL == 0);
    assert(pow2(0) == 1) by {
        vstd::arithmetic::power2::lemma2_to64();
    }
    assert((crate::INITIAL_REWARD * 100_000_000) as int == 5_000_000_000);
    assert(block_reward_at(height) == (crate::INITIAL_REWARD * 100_000_000) as int / pow2(0) as int);
}

/// The reward halves every `HALVING_INTERVAL` blocks, rounding down.
pub proof fn lemma_reward_halves(height: u64)
    requires
        height + crate::HALVING_INTERVAL <= u64::MAX,
    ensures
        block_reward_at((height + crate::HALVING_INTERVAL) as u64) == block_reward_at(height) / 2,
{
    let k = (height / crate::HALVING_INTERVAL) as nat;
    let next = (height + crate::HALVING_INTERVAL) as u64;
    assert(next / crate::HALVING_INTERVAL == k + 1);
    lemma_pow2_unfold(k + 1);
    lemma_pow2_pos(k);
    let r: int = (crate::INITIAL_REWARD * 100_000_000) as int;
    vstd::arithmetic::div_mod::lemma_div_denominator(r, pow2(k) as int, 2);
    assert(pow2(k) as int * 2 == pow2(k + 1) as int);
}

/// No nonce from the header's own up to (not including) `end` makes it meet its target.
pub open spec fn misses_from(start: BlockHeader, end: int) -> bool {
    forall|n: u64| start.nonce <= n < end ==> !meets_target(#[trigger] with_nonce(start, n))
}

proof fn lemma_misses_extend(start: BlockHeader, before: BlockHeader)
    requires
        before == with_nonce(start, before.nonce),
        start.nonce <= before.nonce,
        misses_from(start, before.nonce as int),
        !meets_target(before),
    ensures
        misses_from(start, before.nonce + 1),
{
    assert forall|n: u64| start.nonce <= n < before.nonce + 1 implies !meets_target(
        #[trigger] with_nonce(start, n),
    ) by {
        if n == before.nonce {
            assert(with_nonce(start, n) == before);
        }
    }
}

proof fn lemma_misses_all(start: BlockHeader)
    requires
        misses_from(start, u64::MAX + 1),
    ensures
        forall|n: u64| start.nonce <= n ==> !meets_target(#[trigger] with_nonce(start, n)),
{
}

impl BlockHeader {
    pub fn new(
        timestamp: Timestamp,
        nonce: u64,
        prev_block_hash: BlockHash,
        merkle_root: MerkleRoot,
        target: U256,
    ) -> (r: Self)
        ensures
            r == (BlockHeader { timestamp, nonce, prev_block_hash, merkle_root, target }),
    {
        BlockHeader { timestamp, nonce, prev_block_hash, merkle_root, target }
    }

    /// Appends the encoding of this header to a buffer.
    pub fn write_to(&self, out: &mut Vec<u8>)
        ensures
            final(out)@ == old(out)@ + encode_header(*self),
    {
        self.timestamp.write_to(out);
        put_u64(out, self.nonce);
        put_bytes(out, &self.prev_block_hash.0.as_bytes());
        put_bytes(out, &self.merkle_root.0.as_bytes());
        put_bytes(out, &self.target.to_be_bytes());
        assert(out@ =~= old(out)@ + encode_header(*self));
    }

    /// The hash that proof of work is measured on.
    pub fn hash(&self) -> (r: crate::sha256::Hash)
        ensures
            r == header_hash(*self),
    {
        let mut bytes: Vec<u8> = Vec::new();
        self.write_to(&mut bytes);
        assert(bytes@ =~= encode_header(*self));
        crate::sha256::Hash::hash(bytes.as_slice())
    }

    /// Tries up to `steps` further nonces until the header's hash meets its target.
    /// When the nonce would overflow it restarts at zero with the current time.
    #[verifier::spinoff_prover]
    #[verifier::rlimit(30)]
    pub fn mine(&mut self, steps: usize) -> (found: bool)
        ensures
            final(self).prev_block_hash == old(self).prev_block_hash,
            final(self).merkle_root == old(self).merkle_root,
            final(self).target == old(self).target,
            found ==> meets_target(*final(self)),
            meets_target(*old(self)) ==> found && *final(self) == *old(self),
            old(self).nonce + steps <= u64::MAX ==> {
                &&& *final(self) == with_nonce(*old(self), final(self).nonce)
                &&& old(self).nonce <= final(self).nonce <= old(self).nonce + steps
                &&& forall|n: u64|
                    old(self).nonce <= n < final(self).nonce ==> !meets_target(
                        #[trigger] with_nonce(*old(self), n),
                    )
                &&& !found ==> final(self).nonce == old(self).nonce + steps && !meets_target(
                    *final(self),
                )
            },
            old(self).nonce + steps > u64::MAX && !found ==> forall|n: u64|
                old(self).nonce <= n ==> !meets_target(#[trigger] with_nonce(*old(self), n)),
            old(self).nonce + steps > u64::MAX && !found ==> final(self).nonce == old(self).nonce + steps
                - 0x1_0000_0000_0000_0000,
    {
        if self.hash().matches_target(self.target) {
            return true;
        }
        let ghost start = *self;
        assert(start == *old(self));
        let mut i: usize = 0;
        while i < steps
            invariant
                i <= steps,
                self.prev_block_hash == start.prev_block_hash,
                self.merkle_root == start.merkle_root,
                self.target == start.target,
                start == *old(self),
                !meets_target(start),
                !meets_target(*self),
                start.nonce + i <= u64::MAX ==> *self == with_nonce(start, (start.nonce + i) as u64),
                start.nonce + i <= u64::MAX ==> misses_from(start, start.nonce + i),
                start.nonce + i > u64::MAX ==> misses_from(start, u64::MAX + 1),
                start.nonce + i > u64::MAX ==> self.nonce == start.nonce + i - 0x1_0000_0000_0000_0000,
            decreases steps - i,
        {
            let ghost before = *self;
            proof {
                if start.nonce + i <= u64::MAX {
                    lemma_misses_extend(start, before);
                }
            }
            if self.nonce < u64::MAX {
                self.nonce = self.nonce + 1;
            } else {
                self.nonce = 0;
                self.timestamp = crate::time::now();
            }
            i = i + 1;
            if self.hash().matches_target(self.target) {
                return true;
            }
        }
        proof {
            if start.nonce + i > u64::MAX {
                lemma_misses_all(start);
            }
        }
        false
    }
}

impl Block {
    pub fn new(header: BlockHeader, transactions: Vec<Transaction>) -> (r: Self)
        ensures
            r.header == header,
            r.transactions@ == transactions@,
    {
        Block { header, transactions }
    }

    /// An unmined first block: one coinbase paying the reward at height 0 to `pubkey`,
    /// linked to the all-zero hash, carrying its merkle root, at the minimum target and
    /// nonce 0.
    pub fn first(pubkey: crate::crypto::PublicKey, unique_id: u128, timestamp: Timestamp) -> (r: Block)
        ensures
            r@.1 == seq![
                (
                    Seq::<crate::types::transaction::TransactionInput>::empty(),
                    seq![TransactionOutput { value: block_reward_at(0) as u64, unique_id, pubkey }],
                ),
            ],
            r.header.timestamp == timestamp,
            r.header.nonce == 0,
            r.header.prev_block_hash.0.0.value() == 0,
            r.header.merkle_root == crate::utils::merkle_tree::merkle_root_of(r@.1),
            r.header.target == crate::spec_min_target(),
    {
        proof {
            lemma2_to64();
        }
        let reward = Block::block_reward(0);
        let coinbase = Transaction::new(Vec::new(), vec![TransactionOutput::new(reward, unique_id, pubkey)]);
        let transactions = vec![coinbase];
        let root = MerkleRoot::calculate(transactions.as_slice());
        let r = Block::new(
            BlockHeader::new(timestamp, 0, BlockHash::zero(), root, crate::min_target()),
            transactions,
        );
        assert(transactions@.map_values(|t: Transaction| t@) =~= r@.1);
        assert(r@.1[0].1 =~= seq![TransactionOutput { value: reward, unique_id, pubkey }]);
        assert(r@.1 =~= seq![
            (
                Seq::<crate::types::transaction::TransactionInput>::empty(),
                seq![TransactionOutput { value: block_reward_at(0) as u64, unique_id, pubkey }],
            ),
        ]);
        r
    }

    /// Appends the encoding of this block to a buffer.
    pub fn write_to(&self, out: &mut Vec<u8>)
        ensures
            final(out)@ == old(out)@ + encode_block(self@),
    {
        let ghost start = out@;
        self.header.write_to(out);
        let ghost a = out@;
        put_u64(out, self.transactions.len() as u64);
        let ghost b = out@;
        write_transactions(&self.transactions, out);
        proof {
            let eh = encode_header(self.header);
            let ec = u64_be_bytes(self.transactions@.len() as u64);
            let et = encode_transactions(tx_views(self.transactions@));
            assert(a == start + eh);
            assert(b == start + eh + ec);
            assert(out@ == start + eh + ec + et);
            assert(encode_block(self@) == eh + ec + et);
            assert(start + eh + ec + et =~= start + (eh + ec + et));
        }
    }

    /// The hash of the whole block.
    pub fn hash(&self) -> (r: BlockHash)
        ensures
            r == block_hash_of(self@),
    {
        let mut bytes: Vec<u8> = Vec::new();
        self.write_to(&mut bytes);
        assert(bytes@ =~= encode_block(self@));
        BlockHash(crate::sha256::Hash::hash(bytes.as_slice()))
    }

    /// The satoshis the coinbase may mint at a height.
    pub fn block_reward(block_height: u64) -> (r: u64)
        requires
            block_height / crate::HALVING_INTERVAL < 64,
        ensures
            r == block_reward_at(block_height),
    {
        let halvings = block_height / crate::HALVING_INTERVAL;
        let mut divisor: u64 = 1;
        let mut i: u64 = 0;
        proof {
            lemma2_to64();
        }
        while i < halvings
            invariant
                i <= halvings < 64,
                divisor == pow2(i as nat),
            decreases halvings - i,
        {
            proof {
                lemma2_to64();
                lemma_pow2_unfold((i + 1) as nat);
                lemma_pow2_strictly_increases((i + 1) as nat, 64);
                assert(divisor * 2 == pow2((i + 1) as nat));
            }
            divisor = divisor * 2;
            i = i + 1;
        }
        proof {
            lemma2_to64();
            if halvings > 0 {
                lemma_pow2_strictly_increases(0, halvings as nat);
            }
        }
        crate::INITIAL_REWARD * 100_000_000 / divisor
    }

    /// The fees the non-coinbase transactions leave: their inputs' value minus their
    /// outputs' value. Fails when one of them does not resolve or spends more than it has.
    pub fn calculate_miner_fees(&self, utxos: &LookupTable<TransactionOutput>) -> (r: Result<u64, BtcError>)
        requires
            utxos.wf(),
            fees_computable(self@.1, utxos@),
        ensures
            r is Ok <==> all_spends_ok(self@.1, utxos@),
            r matches Ok(f) ==> f == miner_fees_of(self@.1, utxos@),
            r matches Err(e) ==> e is InvalidTransaction,
    {
        let ghost txs = self@.1;
        let n = self.transactions.len();
        let mut ins: u64 = 0;
        let mut outs: u64 = 0;
        let mut k: usize = 1;
        while k < n
            invariant
                utxos.wf(),
                n == txs.len(),
                txs == self@.1,
                1 <= k,
                k <= n || k == 1,
                fees_computable(txs, utxos@),
                prefix_spends_ok(txs, utxos@, k as int),
                ins == fee_inputs_upto(txs, utxos@, k as int),
                outs == fee_outputs_upto(txs, k as int),
            decreases n - k,
        {
            let tx = &self.transactions[k];
            assert(txs[k as int] == tx@);
            let resolved = match tx.resolve_inputs(utxos) {
                Ok(v) => v,
                Err(e) => {
                    assert(!spend_ok(txs[k as int], utxos@));
                    return Err(e);
                },
            };
            proof {
                assert(sums_fit(txs[k as int], utxos@));
                lemma_resolved_values(tx@, utxos@, resolved@);
            }
            let sums = match tx.verified_spend(resolved) {
                Ok(s) => s,
                Err(e) => {
                    assert(!spend_ok(txs[k as int], utxos@));
                    return Err(e);
                },
            };
            assert(spend_ok(txs[k as int], utxos@));
            ins = ins + sums.0;
            outs = outs + sums.1;
            k = k + 1;
            assert(prefix_spends_ok(txs, utxos@, k as int)) by {
                assert forall|j: int| 1 <= j < k implies #[trigger] spend_ok(txs[j], utxos@) by {
                    if j < k - 1 {
                        assert(prefix_spends_ok(txs, utxos@, (k - 1) as int));
                    }
                }
            }
        }
        proof {
            if n == 0 {
                assert(all_spends_ok(txs, utxos@));
            }
            lemma_fees_nonneg(txs, utxos@, n as int);
            if n <= 1 {
                assert(fee_inputs_upto(txs, utxos@, n as int) == 0);
                assert(fee_outputs_upto(txs, n as int) == 0);
            }
        }
        Ok(ins - outs)
    }

    /// Whether checking the coinbase at a height overflows nothing: every transaction
    /// reached while the ones before it pass has sums that fit, and so do the running
    /// totals and the reward plus the fees.
    pub fn coinbase_checkable_at(&self, predicted_block_height: u64, utxos: &LookupTable<TransactionOutput>) -> (b: bool)
        requires
            utxos.wf(),
        ensures
            b == coinbase_checkable(self@.1, utxos@, predicted_block_height),
    {
        let ghost txs = self@.1;
        let n = self.transactions.len();
        if n == 0 || self.transactions[0].inputs.len() != 0 || self.transactions[0].outputs.len() == 0 {
            assert(!coinbase_shape_ok(txs));
            return true;
        }
        assert(coinbase_shape_ok(txs));
        let mut ins: u64 = 0;
        let mut outs: u64 = 0;
        let mut all_ok = true;
        let mut k: usize = 1;
        while k < n
            invariant
                utxos.wf(),
                n == txs.len(),
                txs == self@.1,
                1 <= k <= n,
                coinbase_shape_ok(txs),
                all_ok == prefix_spends_ok(txs, utxos@, k as int),
                all_ok ==> ins == fee_inputs_upto(txs, utxos@, k as int),
                all_ok ==> outs == fee_outputs_upto(txs, k as int),
                forall|j: int|
                    1 <= j < k && prefix_spends_ok(txs, utxos@, j) ==> {
                        &&& sums_fit(#[trigger] txs[j], utxos@)
                        &&& spend_ok(txs[j], utxos@) ==> fee_inputs_upto(txs, utxos@, j + 1) <= u64::MAX
                            && fee_outputs_upto(txs, j + 1) <= u64::MAX
                    },
            decreases n - k,
        {
            let tx = &self.transactions[k];
            assert(txs[k as int] == tx@);
            if all_ok {
                match tx.resolve_inputs(utxos) {
                    Err(_) => {
                        all_ok = false;
                    },
                    Ok(resolved) => {
                        proof {
                            lemma_resolved_values(tx@, utxos@, resolved@);
                        }
                        let spent = spent_values(&resolved);
                        let iv = match checked_sum_values(&spent) {
                            Some(v) => v,
                            None => {
                                assert(!sums_fit(txs[k as int], utxos@));
                                assert(!fees_computable(txs, utxos@));
                                return false;
                            },
                        };
                        let ov = match checked_sum_values(&tx.outputs) {
                            Some(v) => v,
                            None => {
                                assert(!sums_fit(txs[k as int], utxos@));
                                assert(!fees_computable(txs, utxos@));
                                return false;
                            },
                        };
                        if iv < ov {
                            all_ok = false;
                        } else {
                            match (ins.checked_add(iv), outs.checked_add(ov)) {
                                (Some(a), Some(b)) => {
                                    ins = a;
                                    outs = b;
                                },
                                _ => {
                                    assert(spend_ok(txs[k as int], utxos@));
                                    assert(!fees_computable(txs, utxos@));
                                    return false;
                                },
                            }
                        }
                    },
                }
            }
            proof {
                assert(prefix_spends_ok(txs, utxos@, k + 1) == (prefix_spends_ok(txs, utxos@, k as int)
                    && spend_ok(txs[k as int], utxos@))) by {
                    if prefix_spends_ok(txs, utxos@, k + 1) {
                        assert forall|j: int| 1 <= j < k implies #[trigger] spend_ok(txs[j], utxos@) by {
                            assert(spend_ok(txs[j], utxos@));
                        }
                    }
                }
            }
            k = k + 1;
        }
        assert(fees_computable(txs, utxos@));
        if !all_ok {
            return true;
        }
        if predicted_block_height / crate::HALVING_INTERVAL >= 64 {
            return false;
        }
        let cb = match checked_sum_values(&self.transactions[0].outputs) {
            Some(v) => v,
            None => {
                return false;
            },
        };
        proof {
            lemma_fees_nonneg(txs, utxos@, n as int);
            if n <= 1 {
                assert(fee_inputs_upto(txs, utxos@, n as int) == 0);
                assert(fee_outputs_upto(txs, n as int) == 0);
            }
        }
        let reward = Block::block_reward(predicted_block_height);
        reward.checked_add(ins - outs).is_some()
    }

    /// Checks the coinbase: it comes first, spends nothing, creates something and mints
    /// exactly the block reward plus the fees of the other transactions.
    pub fn verify_coinbase_transaction(
        &self,
        predicted_block_height: u64,
        utxos: &LookupTable<TransactionOutput>,
    ) -> (r: Result<(), BtcError>)
        requires
            utxos.wf(),
            coinbase_checkable(self@.1, utxos@, predicted_block_height),
        ensures
            r is Ok <==> coinbase_valid(self@.1, utxos@, predicted_block_height),
            r matches Err(e) ==> e is InvalidTransaction,
    {
        let ghost txs = self@.1;
        if self.transactions.len() == 0 {
            return Err(BtcError::InvalidTransaction);
        }
        let coinbase_tx = &self.transactions[0];
        assert(txs[0] == coinbase_tx@);
        if coinbase_tx.inputs.len() != 0 {
            return Err(BtcError::InvalidTransaction);
        }
        if coinbase_tx.outputs.len() == 0 {
            return Err(BtcError::InvalidTransaction);
        }
        let miner_fees = self.calculate_miner_fees(utxos)?;
        let block_reward = Block::block_reward(predicted_block_height);
        let total_coinbase_value = sum_output_values(&coinbase_tx.outputs);
        if total_coinbase_value != block_reward + miner_fees {
            return Err(BtcError::InvalidTransaction);
        }
        Ok(())
    }

    /// Checks every transaction of the block against the unspent outputs: the coinbase,
    /// then each other transaction's input resolution, signatures and values.
    pub fn verify_transactions(
        &self,
        predicted_block_height: u64,
        utxos: &LookupTable<TransactionOutput>,
    ) -> (r: Result<(), BtcError>)
        requires
            utxos.wf(),
            coinbase_checkable(self@.1, utxos@, predicted_block_height),
        ensures
            r is Ok <==> transactions_valid(self@.1, utxos@, predicted_block_height),
            r matches Err(e) ==> if coinbase_valid(self@.1, utxos@, predicted_block_height) {
                e is InvalidSignature
            } else {
                e is InvalidTransaction
            },
    {
        let ghost txs = self@.1;
        if self.transactions.len() == 0 {
            return Err(BtcError::InvalidTransaction);
        }
        self.verify_coinbase_transaction(predicted_block_height, utxos)?;
        let n = self.transactions.len();
        let mut k: usize = 1;
        while k < n
            invariant
                utxos.wf(),
                n == txs.len(),
                txs == self@.1,
                1 <= k <= n,
                coinbase_valid(txs, utxos@, predicted_block_height),
                coinbase_checkable(txs, utxos@, predicted_block_height),
                forall|a: int, j: int|
                    1 <= a < k && 0 <= j < txs[a].0.len() ==> #[trigger] input_signature_ok(
                        txs[a].0[j],
                        utxos@,
                    ),
            decreases n - k,
        {
            let tx = &self.transactions[k];
            assert(txs[k as int] == tx@);
            assert(spend_ok(txs[k as int], utxos@));
            let resolved = match tx.resolve_inputs(utxos) {
                Ok(v) => v,
                Err(e) => {
                    assert(false);
                    return Err(e);
                },
            };
            let mut j: usize = 0;
            while j < resolved.len()
                invariant
                    txs == self@.1,
                    1 <= k < txs.len(),
                    txs[k as int] == tx@,
                    coinbase_valid(txs, utxos@, predicted_block_height),
                    resolved@ == tx.inputs@.map_values(
                        |i: crate::types::transaction::TransactionInput| (i, utxos@[i.prev_transaction_output_hash.0]),
                    ),
                    j <= resolved@.len(),
                    forall|m: int| 0 <= m < j ==> #[trigger] input_signature_ok(tx.inputs@[m], utxos@),
                decreases resolved@.len() - j,
            {
                let pair = resolved[j];
                assert(pair == resolved@[j as int]);
                assert(pair.0 == tx.inputs@[j as int]);
                assert(pair.1 == utxos@[pair.0.prev_transaction_output_hash.0]);
                assert(txs[k as int].0[j as int] == pair.0);
                if !pair.0.signature.verify(&pair.0.prev_transaction_output_hash.0, &pair.1.pubkey) {
                    assert(!signatures_ok(txs, utxos@)) by {
                        assert(!input_signature_ok(txs[k as int].0[j as int], utxos@));
                    }
                    return Err(BtcError::InvalidSignature);
                }
                j = j + 1;
            }
            proof {
                assert(prefix_spends_ok(txs, utxos@, k as int));
                assert(sums_fit(txs[k as int], utxos@));
                lemma_resolved_values(tx@, utxos@, resolved@);
            }
            let spent = tx.verified_spend(resolved);
            k = k + 1;
        }
        Ok(())
    }
}

} // verus!
