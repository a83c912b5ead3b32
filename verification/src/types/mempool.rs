use vstd::prelude::*;
use crate::error::BtcError;
use crate::sha256::Txid;
use crate::time::Timestamp;
use crate::types::block::input_signature_ok;
use crate::types::blockchain::EntryModel;
use crate::types::transaction::{
    TransactionInput, TransactionOutput, TxModel, input_value, inputs_distinct, output_value,
    resolves, spend_ok, sums_fit, txid_of,
};

verus! {

/// One of the inputs spends the output `k`.
pub open spec fn spends(ins: Seq<TransactionInput>, k: crate::sha256::Hash) -> bool {
    exists|j: int| 0 <= j < ins.len() && (#[trigger] ins[j]).prev_transaction_output_hash.0 == k
}

/// Every input is signed by the owner of the output it spends.
pub open spec fn inputs_signed(t: TxModel, utxos: Map<crate::sha256::Hash, TransactionOutput>) -> bool {
    forall|j: int| 0 <= j < t.0.len() ==> #[trigger] input_signature_ok(t.0[j], utxos)
}

/// The fee a transaction leaves to the miner: what it spends minus what it creates.
pub open spec fn tx_fee(t: TxModel, utxos: Map<crate::sha256::Hash, TransactionOutput>) -> int {
    input_value(t, utxos) - output_value(t)
}

/// The mempool transactions that already claim an output the inputs spend.
pub open spec fn conflict_ids(ins: Seq<TransactionInput>, pending: Map<crate::sha256::Hash, Txid>) -> Set<crate::sha256::Hash> {
    Set::new(
        |c: crate::sha256::Hash|
            exists|j: int|
                0 <= j < ins.len() && pending.contains_key((#[trigger] ins[j]).prev_transaction_output_hash.0)
                    && pending[ins[j].prev_transaction_output_hash.0].0 == c,
    )
}

/// A claim that the inputs collide with belongs to a transaction paying at least `fee`.
pub open spec fn outbid(
    ins: Seq<TransactionInput>,
    pool: Map<crate::sha256::Hash, EntryModel>,
    pending: Map<crate::sha256::Hash, Txid>,
    fee: int,
) -> bool {
    exists|j: int|
        0 <= j < ins.len() && pending.contains_key((#[trigger] ins[j]).prev_transaction_output_hash.0)
            && fee <= pool[pending[ins[j].prev_transaction_output_hash.0].0].1
}

/// Every claim that the inputs collide with belongs to a transaction in the mempool.
pub open spec fn claims_live(
    ins: Seq<TransactionInput>,
    pool: Map<crate::sha256::Hash, EntryModel>,
    pending: Map<crate::sha256::Hash, Txid>,
) -> bool {
    forall|j: int|
        0 <= j < ins.len() && pending.contains_key((#[trigger] ins[j]).prev_transaction_output_hash.0)
            ==> pool.contains_key(pending[ins[j].prev_transaction_output_hash.0].0)
}

/// The claims once every output the inputs spend is claimed by `id`.
pub open spec fn claim_inputs(pending: Map<crate::sha256::Hash, Txid>, ins: Seq<TransactionInput>, id: Txid) -> Map<crate::sha256::Hash, Txid> {
    Map::new(
        |k: crate::sha256::Hash| pending.contains_key(k) || spends(ins, k),
        |k: crate::sha256::Hash| if spends(ins, k) { id } else { pending[k] },
    )
}

/// The outputs that the listed mempool transactions spend.
pub open spec fn inputs_of(pool: Map<crate::sha256::Hash, EntryModel>, ids: Set<crate::sha256::Hash>) -> Set<crate::sha256::Hash> {
    Set::new(
        |v: crate::sha256::Hash|
            exists|c: crate::sha256::Hash| ids.contains(c) && pool.contains_key(c) && #[trigger] spends(pool[c].2.0, v),
    )
}

/// The outputs that some of the transactions spend.
pub open spec fn inputs_of_txs(txs: Seq<TxModel>) -> Set<crate::sha256::Hash> {
    Set::new(|v: crate::sha256::Hash| exists|k: int| 0 <= k < txs.len() && #[trigger] spends(txs[k].0, v))
}

/// The claims left once the outputs in `released` are let go, but for those `id` holds.
pub open spec fn release_claims(pending: Map<crate::sha256::Hash, Txid>, released: Set<crate::sha256::Hash>, id: Txid) -> Map<crate::sha256::Hash, Txid> {
    Map::new(
        |k: crate::sha256::Hash| pending.contains_key(k) && (!released.contains(k) || pending[k] == id),
        |k: crate::sha256::Hash| pending[k],
    )
}

/// Admitting the transaction reaches no computation that would panic: an overflowing
/// sum, or a claim of a transaction no longer in the mempool.
pub open spec fn mempool_safe(
    t: TxModel,
    utxos: Map<crate::sha256::Hash, TransactionOutput>,
    pool: Map<crate::sha256::Hash, EntryModel>,
    pending: Map<crate::sha256::Hash, Txid>,
) -> bool {
    &&& sums_fit(t, utxos)
    &&& (spend_ok(t, utxos) && inputs_signed(t, utxos)) ==> claims_live(t.0, pool, pending)
}

/// The mempool admits the transaction: its inputs resolve and are signed, it spends at
/// least what it creates, and no transaction it collides with pays as much.
pub open spec fn admits(
    t: TxModel,
    utxos: Map<crate::sha256::Hash, TransactionOutput>,
    pool: Map<crate::sha256::Hash, EntryModel>,
    pending: Map<crate::sha256::Hash, Txid>,
) -> bool {
    &&& spend_ok(t, utxos)
    &&& inputs_signed(t, utxos)
    &&& !outbid(t.0, pool, pending, tx_fee(t, utxos))
}

/// The error a refused transaction is answered with: the first check that fails.
pub open spec fn admission_error(
    t: TxModel,
    utxos: Map<crate::sha256::Hash, TransactionOutput>,
    e: BtcError,
) -> bool {
    if !resolves(t, utxos) {
        e is InvalidTransaction
    } else if !inputs_signed(t, utxos) {
        e is InvalidSignature
    } else if input_value(t, utxos) < output_value(t) {
        e is InvalidTransaction
    } else {
        e is TransactionDropped
    }
}

/// An output is spent by the first `i + 1` inputs when the first `i` or the next spend it.
pub proof fn lemma_spends_step(ins: Seq<TransactionInput>, i: int, k: crate::sha256::Hash)
    requires
        0 <= i < ins.len(),
    ensures
        spends(ins.subrange(0, i + 1), k) <==> (spends(ins.subrange(0, i), k)
            || ins[i].prev_transaction_output_hash.0 == k),
{
    let a = ins.subrange(0, i);
    let b = ins.subrange(0, i + 1);
    if spends(b, k) {
        let j = choose|j: int| 0 <= j < b.len() && (#[trigger] b[j]).prev_transaction_output_hash.0 == k;
        if j < i {
            assert(a[j] == b[j]);
        }
    }
    if spends(a, k) {
        let j = choose|j: int| 0 <= j < a.len() && (#[trigger] a[j]).prev_transaction_output_hash.0 == k;
        assert(a[j] == b[j]);
    }
    if ins[i].prev_transaction_output_hash.0 == k {
        assert(b[i] == ins[i]);
    }
}

/// Distinct inputs: none before position `i` spends what input `i` spends.
pub proof fn lemma_distinct_not_spent_before(ins: Seq<TransactionInput>, i: int)
    requires
        inputs_distinct(ins),
        0 <= i < ins.len(),
    ensures
        !spends(ins.subrange(0, i), ins[i].prev_transaction_output_hash.0),
{
    let a = ins.subrange(0, i);
    if spends(a, ins[i].prev_transaction_output_hash.0) {
        let j = choose|j: int|
            0 <= j < a.len() && (#[trigger] a[j]).prev_transaction_output_hash.0
                == ins[i].prev_transaction_output_hash.0;
        assert(a[j] == ins[j]);
        assert(ins[j].prev_transaction_output_hash == ins[i].prev_transaction_output_hash);
    }
}

/// Claiming one more input adds one claim.
pub proof fn lemma_claim_step(pending: Map<crate::sha256::Hash, Txid>, ins: Seq<TransactionInput>, i: int, id: Txid)
    requires
        0 <= i < ins.len(),
    ensures
        claim_inputs(pending, ins.subrange(0, i + 1), id) == claim_inputs(pending, ins.subrange(0, i), id).insert(
            ins[i].prev_transaction_output_hash.0,
            id,
        ),
{
    assert forall|k: crate::sha256::Hash| #[trigger] spends(ins.subrange(0, i + 1), k) == (spends(
        ins.subrange(0, i),
        k,
    ) || ins[i].prev_transaction_output_hash.0 == k) by {
        lemma_spends_step(ins, i, k);
    }
    assert(claim_inputs(pending, ins.subrange(0, i + 1), id) =~= claim_inputs(pending, ins.subrange(0, i), id).insert(
        ins[i].prev_transaction_output_hash.0,
        id,
    ));
}

/// One more input adds the transaction that claims its output, if any, to the conflicts.
pub proof fn lemma_conflict_step(pending: Map<crate::sha256::Hash, Txid>, ins: Seq<TransactionInput>, i: int)
    requires
        0 <= i < ins.len(),
    ensures
        ({
            let u = ins[i].prev_transaction_output_hash.0;
            let before = conflict_ids(ins.subrange(0, i), pending);
            conflict_ids(ins.subrange(0, i + 1), pending) == if pending.contains_key(u) {
                before.insert(pending[u].0)
            } else {
                before
            }
        }),
{
    let u = ins[i].prev_transaction_output_hash.0;
    let a = ins.subrange(0, i);
    let b = ins.subrange(0, i + 1);
    let before = conflict_ids(a, pending);
    let after = conflict_ids(b, pending);
    let expect = if pending.contains_key(u) {
        before.insert(pending[u].0)
    } else {
        before
    };
    assert forall|c: crate::sha256::Hash| after.contains(c) implies expect.contains(c) by {
        let j = choose|j: int|
            0 <= j < b.len() && pending.contains_key((#[trigger] b[j]).prev_transaction_output_hash.0)
                && pending[b[j].prev_transaction_output_hash.0].0 == c;
        if j < i {
            assert(a[j] == b[j]);
        }
    }
    assert forall|c: crate::sha256::Hash| expect.contains(c) implies after.contains(c) by {
        if before.contains(c) {
            let j = choose|j: int|
                0 <= j < a.len() && pending.contains_key((#[trigger] a[j]).prev_transaction_output_hash.0)
                    && pending[a[j].prev_transaction_output_hash.0].0 == c;
            assert(a[j] == b[j]);
        } else {
            assert(b[i] == ins[i]);
        }
    }
    assert(after =~= expect);
}


/// A mempool entry has waited longer than `MAX_MEMPOOL_TRANSACTION_AGE` seconds at `now`.
pub open spec fn expired(e: EntryModel, now: Timestamp) -> bool {
    now.nanos_since(e.0) > crate::MAX_MEMPOOL_TRANSACTION_AGE * 1_000_000_000
}

/// The mempool transactions that have expired at `now`.
pub open spec fn expired_ids(pool: Map<crate::sha256::Hash, EntryModel>, now: Timestamp) -> Set<crate::sha256::Hash> {
    Set::new(|h: crate::sha256::Hash| pool.contains_key(h) && expired(pool[h], now))
}

/// The outputs that the inputs spend.
pub open spec fn spent_by(ins: Seq<TransactionInput>) -> Set<crate::sha256::Hash> {
    Set::new(|v: crate::sha256::Hash| spends(ins, v))
}

/// Listing one more mempool transaction adds the outputs it spends.
pub proof fn lemma_inputs_of_insert(pool: Map<crate::sha256::Hash, EntryModel>, ids: Set<crate::sha256::Hash>, c: crate::sha256::Hash)
    requires
        pool.contains_key(c),
    ensures
        inputs_of(pool, ids.insert(c)) == inputs_of(pool, ids).union(spent_by(pool[c].2.0)),
{
    let a = inputs_of(pool, ids.insert(c));
    let b = inputs_of(pool, ids).union(spent_by(pool[c].2.0));
    assert forall|v: crate::sha256::Hash| a.contains(v) implies b.contains(v) by {
        let d = choose|d: crate::sha256::Hash|
            ids.insert(c).contains(d) && pool.contains_key(d) && #[trigger] spends(pool[d].2.0, v);
        if d != c {
            assert(inputs_of(pool, ids).contains(v));
        }
    }
    assert forall|v: crate::sha256::Hash| b.contains(v) implies a.contains(v) by {
        if inputs_of(pool, ids).contains(v) {
            let d = choose|d: crate::sha256::Hash|
                ids.contains(d) && pool.contains_key(d) && #[trigger] spends(pool[d].2.0, v);
            assert(ids.insert(c).contains(d));
        } else {
            assert(spends(pool[c].2.0, v));
        }
    }
    assert(a =~= b);
}


/// `ks` lists every mempool transaction once, from the highest fee to the lowest.
pub open spec fn by_fee(pool: Map<crate::sha256::Hash, EntryModel>, ks: Seq<crate::sha256::Hash>) -> bool {
    &&& ks.no_duplicates()
    &&& ks.to_set() == pool.dom()
    &&& forall|a: int, b: int| 0 <= a < b < ks.len() ==> #[trigger] pool[ks[a]].1 >= #[trigger] pool[ks[b]].1
}

/// `ks` lists every mempool transaction once, from the highest fee to the lowest, and
/// `txs` holds the transactions in that order.
pub open spec fn fee_order(pool: Map<crate::sha256::Hash, EntryModel>, ks: Seq<crate::sha256::Hash>, txs: Seq<TxModel>) -> bool {
    &&& by_fee(pool, ks)
    &&& ks.len() == txs.len()
    &&& forall|a: int| 0 <= a < ks.len() ==> txs[a] == #[trigger] pool[ks[a]].2
}

/// The fees of the first `m` transactions a listing names.
pub open spec fn fee_sum(pool: Map<crate::sha256::Hash, EntryModel>, ks: Seq<crate::sha256::Hash>, m: int) -> int
    decreases m,
{
    if m <= 0 {
        0
    } else {
        fee_sum(pool, ks, m - 1) + pool[ks[m - 1]].1
    }
}

/// The fees of a listing add up one transaction at a time: none sum to zero, and one more
/// adds its own fee to those before it.
pub proof fn lemma_fee_sum_step(pool: Map<crate::sha256::Hash, EntryModel>, ks: Seq<crate::sha256::Hash>, m: int)
    requires
        0 <= m,
    ensures
        fee_sum(pool, ks, 0) == 0,
        fee_sum(pool, ks, m + 1) == fee_sum(pool, ks, m) + pool[ks[m]].1,
{
}

/// How many mempool transactions a block template carries out of `n`.
pub open spec fn template_count(n: int) -> int {
    if n < crate::BLOCK_TRANSACTION_CAP {
        n
    } else {
        crate::BLOCK_TRANSACTION_CAP as int
    }
}

/// Positions `0..n`, each once, ordered by decreasing `fees`.
pub open spec fn sorted_positions(order: Seq<usize>, fees: Seq<u64>, n: int) -> bool {
    &&& order.len() == n
    &&& order.no_duplicates()
    &&& forall|a: int| 0 <= a < n ==> #[trigger] order[a] < n
    &&& forall|a: int, b: int| 0 <= a < b < n ==> fees[#[trigger] order[a] as int] >= fees[#[trigger] order[b] as int]
}

/// Sorts positions `0..fees.len()` by decreasing fee.
pub fn sort_by_fee(fees: &Vec<u64>) -> (order: Vec<usize>)
    ensures
        sorted_positions(order@, fees@, fees@.len() as int),
{
    let n = fees.len();
    let mut order: Vec<usize> = Vec::new();
    let mut p: usize = 0;
    while p < n
        invariant
            n == fees@.len(),
            p <= n,
            order@.len() == p,
            forall|a: int| 0 <= a < p ==> #[trigger] order@[a] == a,
        decreases n - p,
    {
        order.push(p);
        p = p + 1;
    }
    let mut i: usize = 0;
    while i < n
        invariant
            n == fees@.len(),
            order@.len() == n,
            i <= n,
            order@.no_duplicates(),
            forall|a: int| 0 <= a < n ==> #[trigger] order@[a] < n,
            forall|a: int, b: int|
                0 <= a < b < i ==> fees@[#[trigger] order@[a] as int] >= fees@[#[trigger] order@[b] as int],
            forall|a: int, b: int|
                0 <= a < i <= b < n ==> fees@[#[trigger] order@[a] as int] >= fees@[#[trigger] order@[b] as int],
        decreases n - i,
    {
        let mut m: usize = i;
        let mut j: usize = i + 1;
        while j < n
            invariant
                n == fees@.len(),
                order@.len() == n,
                forall|a: int| 0 <= a < n ==> #[trigger] order@[a] < n,
                i <= m < j <= n,
                forall|b: int| i <= b < j ==> fees@[order@[m as int] as int] >= fees@[#[trigger] order@[b] as int],
            decreases n - j,
        {
            if fees[order[j]] > fees[order[m]] {
                m = j;
            }
            j = j + 1;
        }
        let x = order[i];
        let y = order[m];
        let ghost before = order@;
        order.set(i, y);
        order.set(m, x);
        proof {
            assert(order@ == before.update(i as int, y).update(m as int, x));
            assert forall|a: int, b: int| 0 <= a < n && 0 <= b < n && a != b implies order@[a] != order@[b] by {
                let a0 = if a == i { m as int } else if a == m { i as int } else { a };
                let b0 = if b == i { m as int } else if b == m { i as int } else { b };
                assert(order@[a] == before[a0]);
                assert(order@[b] == before[b0]);
            }
            assert forall|a: int, b: int|
                0 <= a < b < i + 1 implies fees@[#[trigger] order@[a] as int] >= fees@[#[trigger] order@[b] as int] by {
                if b == i {
                    assert(order@[b] == before[m as int]);
                    assert(order@[a] == before[a]);
                }
            }
            assert forall|a: int, b: int|
                0 <= a < i + 1 <= b < n implies fees@[#[trigger] order@[a] as int] >= fees@[#[trigger] order@[b] as int] by {
                let b0 = if b == m { i as int } else { b };
                assert(order@[b] == before[b0]);
                if a == i {
                    assert(order@[a] == before[m as int]);
                } else {
                    assert(order@[a] == before[a]);
                }
            }
        }
        i = i + 1;
    }
    order
}

/// The mempool after admitting a transaction at `now`: the transactions it collides with
/// are gone and it is kept under its hash with its fee.
pub open spec fn pool_after_admission(
    t: TxModel,
    utxos: Map<crate::sha256::Hash, TransactionOutput>,
    pool: Map<crate::sha256::Hash, EntryModel>,
    pending: Map<crate::sha256::Hash, Txid>,
    now: Timestamp,
) -> Map<crate::sha256::Hash, EntryModel> {
    pool.remove_keys(conflict_ids(t.0, pending)).insert(
        txid_of(t).0,
        (now, tx_fee(t, utxos) as u64, t),
    )
}

/// The claims after admitting a transaction: it claims every output it spends, and the
/// transactions it evicted give up their claims on the others.
pub open spec fn claims_after_admission(
    t: TxModel,
    pool: Map<crate::sha256::Hash, EntryModel>,
    pending: Map<crate::sha256::Hash, Txid>,
) -> Map<crate::sha256::Hash, Txid> {
    release_claims(
        claim_inputs(pending, t.0, txid_of(t)),
        inputs_of(pool, conflict_ids(t.0, pending)),
        txid_of(t),
    )
}

/// Every mempool transaction is kept under its own hash.
pub open spec fn keyed_by_txid(pool: Map<crate::sha256::Hash, EntryModel>) -> bool {
    forall|h: crate::sha256::Hash| #[trigger] pool.contains_key(h) ==> txid_of(pool[h].2).0 == h
}

/// Every output a mempool transaction spends is claimed by that transaction.
pub open spec fn inputs_claimed(pool: Map<crate::sha256::Hash, EntryModel>, pending: Map<crate::sha256::Hash, Txid>) -> bool {
    forall|h: crate::sha256::Hash, j: int|
        pool.contains_key(h) && 0 <= j < pool[h].2.0.len() ==> {
            let u = (#[trigger] pool[h].2.0[j]).prev_transaction_output_hash.0;
            pending.contains_key(u) && pending[u].0 == h
        }
}

/// Every claim belongs to a mempool transaction that spends the claimed output.
pub open spec fn claims_backed(pool: Map<crate::sha256::Hash, EntryModel>, pending: Map<crate::sha256::Hash, Txid>) -> bool {
    forall|v: crate::sha256::Hash|
        #[trigger] pending.contains_key(v) ==> pool.contains_key(pending[v].0) && spends(pool[pending[v].0].2.0, v)
}

/// The mempool and its claims agree.
pub open spec fn mempool_consistent(pool: Map<crate::sha256::Hash, EntryModel>, pending: Map<crate::sha256::Hash, Txid>) -> bool {
    &&& keyed_by_txid(pool)
    &&& inputs_claimed(pool, pending)
    &&& claims_backed(pool, pending)
}

/// Under consistent claims, an output spent by a mempool transaction is claimed by it.
proof fn lemma_claim_of_spender(
    pool: Map<crate::sha256::Hash, EntryModel>,
    pending: Map<crate::sha256::Hash, Txid>,
    c: crate::sha256::Hash,
    v: crate::sha256::Hash,
)
    requires
        inputs_claimed(pool, pending),
        pool.contains_key(c),
        spends(pool[c].2.0, v),
    ensures
        pending.contains_key(v),
        pending[v].0 == c,
{
    let j = choose|j: int| 0 <= j < pool[c].2.0.len() && (#[trigger] pool[c].2.0[j]).prev_transaction_output_hash.0 == v;
    assert(pool[c].2.0[j].prev_transaction_output_hash.0 == v);
}

/// Admitting a transaction keeps the mempool and its claims consistent, unless a
/// different transaction with the same hash is already in the mempool.
pub proof fn lemma_admission_keeps_consistency(
    t: TxModel,
    utxos: Map<crate::sha256::Hash, TransactionOutput>,
    pool: Map<crate::sha256::Hash, EntryModel>,
    pending: Map<crate::sha256::Hash, Txid>,
    now: Timestamp,
)
    requires
        mempool_consistent(pool, pending),
        pool.contains_key(txid_of(t).0) ==> pool[txid_of(t).0].2 == t,
    ensures
        mempool_consistent(
            pool_after_admission(t, utxos, pool, pending, now),
            claims_after_admission(t, pool, pending),
        ),
{
    let h = txid_of(t).0;
    let id = txid_of(t);
    let c = conflict_ids(t.0, pending);
    let p2 = pool_after_admission(t, utxos, pool, pending, now);
    let q1 = claim_inputs(pending, t.0, id);
    let e = inputs_of(pool, c);
    let q2 = claims_after_admission(t, pool, pending);
    assert forall|g: crate::sha256::Hash| #[trigger] p2.contains_key(g) implies txid_of(p2[g].2).0 == g by {}
    assert forall|g: crate::sha256::Hash, j: int| p2.contains_key(g) && 0 <= j < p2[g].2.0.len() implies {
        let u = (#[trigger] p2[g].2.0[j]).prev_transaction_output_hash.0;
        q2.contains_key(u) && q2[u].0 == g
    } by {
        let u = p2[g].2.0[j].prev_transaction_output_hash.0;
        if g == h {
            assert(spends(t.0, u)) by {
                assert(t.0[j].prev_transaction_output_hash.0 == u);
            }
        } else {
            assert(pool.contains_key(g) && !c.contains(g));
            assert(pool[g].2.0[j].prev_transaction_output_hash.0 == u);
            assert(pending.contains_key(u) && pending[u].0 == g);
            if spends(t.0, u) {
                let k = choose|k: int| 0 <= k < t.0.len() && (#[trigger] t.0[k]).prev_transaction_output_hash.0 == u;
                assert(c.contains(pending[t.0[k].prev_transaction_output_hash.0].0));
            }
            if e.contains(u) {
                let d = choose|d: crate::sha256::Hash| c.contains(d) && pool.contains_key(d) && #[trigger] spends(pool[d].2.0, u);
                lemma_claim_of_spender(pool, pending, d, u);
            }
        }
    }
    assert forall|v: crate::sha256::Hash| #[trigger] q2.contains_key(v) implies p2.contains_key(q2[v].0) && spends(
        p2[q2[v].0].2.0,
        v,
    ) by {
        if !spends(t.0, v) {
            let g = pending[v].0;
            assert(pool.contains_key(g) && spends(pool[g].2.0, v));
            if c.contains(g) {
                assert(e.contains(v));
                assert(g == h);
            }
        }
    }
}

/// Taking the listed transactions out of the mempool and letting go of the claims on
/// the outputs they spend keeps the mempool and its claims consistent.
pub proof fn lemma_eviction_keeps_consistency(
    pool: Map<crate::sha256::Hash, EntryModel>,
    pending: Map<crate::sha256::Hash, Txid>,
    gone: Set<crate::sha256::Hash>,
)
    requires
        mempool_consistent(pool, pending),
    ensures
        mempool_consistent(pool.remove_keys(gone), pending.remove_keys(inputs_of(pool, gone))),
{
    let p2 = pool.remove_keys(gone);
    let e = inputs_of(pool, gone);
    let q2 = pending.remove_keys(e);
    assert forall|g: crate::sha256::Hash, j: int| p2.contains_key(g) && 0 <= j < p2[g].2.0.len() implies {
        let u = (#[trigger] p2[g].2.0[j]).prev_transaction_output_hash.0;
        q2.contains_key(u) && q2[u].0 == g
    } by {
        let u = p2[g].2.0[j].prev_transaction_output_hash.0;
        assert(pool[g].2.0[j].prev_transaction_output_hash.0 == u);
        if e.contains(u) {
            let d = choose|d: crate::sha256::Hash| gone.contains(d) && pool.contains_key(d) && #[trigger] spends(pool[d].2.0, u);
            lemma_claim_of_spender(pool, pending, d, u);
        }
    }
    assert forall|v: crate::sha256::Hash| #[trigger] q2.contains_key(v) implies p2.contains_key(q2[v].0) && spends(
        p2[q2[v].0].2.0,
        v,
    ) by {
        let g = pending[v].0;
        if gone.contains(g) {
            assert(e.contains(v));
        }
    }
}

/// Where every claim is backed by a mempool transaction, every claim any transaction's
/// inputs meet is held by a live mempool transaction: admission can then be refused as
/// unsafe only for an overflowing sum.
pub proof fn lemma_backed_claims_are_live(
    ins: Seq<TransactionInput>,
    pool: Map<crate::sha256::Hash, EntryModel>,
    pending: Map<crate::sha256::Hash, Txid>,
)
    requires
        claims_backed(pool, pending),
    ensures
        claims_live(ins, pool, pending),
{
}

/// A transaction the mempool admits pays a strictly higher fee than every transaction
/// whose claim it takes over.
pub proof fn lemma_replacement_pays_more(
    t: TxModel,
    utxos: Map<crate::sha256::Hash, TransactionOutput>,
    pool: Map<crate::sha256::Hash, EntryModel>,
    pending: Map<crate::sha256::Hash, Txid>,
    c: crate::sha256::Hash,
)
    requires
        admits(t, utxos, pool, pending),
        conflict_ids(t.0, pending).contains(c),
    ensures
        tx_fee(t, utxos) > pool[c].1,
{
    let j = choose|j: int|
        0 <= j < t.0.len() && pending.contains_key((#[trigger] t.0[j]).prev_transaction_output_hash.0)
            && pending[t.0[j].prev_transaction_output_hash.0].0 == c;
    assert(pending.contains_key(t.0[j].prev_transaction_output_hash.0));
}

/// What admission does, stated entry by entry: the new transaction is kept under its own
/// hash with the time and its fee (what it spends less what it creates); every output it
/// spends is then claimed by it; a transaction holding a claim on one of those outputs is
/// gone; every other mempool transaction stays as it was.
pub proof fn lemma_admission_effect(
    t: TxModel,
    utxos: Map<crate::sha256::Hash, TransactionOutput>,
    pool: Map<crate::sha256::Hash, EntryModel>,
    pending: Map<crate::sha256::Hash, Txid>,
    now: Timestamp,
)
    ensures
        ({
            let np = pool_after_admission(t, utxos, pool, pending, now);
            let id = txid_of(t).0;
            &&& np.contains_key(id)
            &&& np[id] == (now, (input_value(t, utxos) - output_value(t)) as u64, t)
        }),
        forall|j: int|
            0 <= j < t.0.len() ==> {
                let u = (#[trigger] t.0[j]).prev_transaction_output_hash.0;
                &&& claims_after_admission(t, pool, pending).contains_key(u)
                &&& claims_after_admission(t, pool, pending)[u] == txid_of(t)
            },
        forall|j: int|
            0 <= j < t.0.len() && pending.contains_key((#[trigger] t.0[j]).prev_transaction_output_hash.0)
                && pending[t.0[j].prev_transaction_output_hash.0].0 != txid_of(t).0 ==> !pool_after_admission(
                t,
                utxos,
                pool,
                pending,
                now,
            ).contains_key(pending[t.0[j].prev_transaction_output_hash.0].0),
        forall|h: crate::sha256::Hash|
            #[trigger] pool.contains_key(h) && h != txid_of(t).0 && !(exists|j: int|
                0 <= j < t.0.len() && pending.contains_key((#[trigger] t.0[j]).prev_transaction_output_hash.0)
                    && pending[t.0[j].prev_transaction_output_hash.0].0 == h) ==> {
                &&& pool_after_admission(t, utxos, pool, pending, now).contains_key(h)
                &&& pool_after_admission(t, utxos, pool, pending, now)[h] == pool[h]
            },
{
    let id = txid_of(t);
    let cl = claim_inputs(pending, t.0, id);
    assert forall|j: int| 0 <= j < t.0.len() implies {
        let u = (#[trigger] t.0[j]).prev_transaction_output_hash.0;
        &&& claims_after_admission(t, pool, pending).contains_key(u)
        &&& claims_after_admission(t, pool, pending)[u] == txid_of(t)
    } by {
        let u = t.0[j].prev_transaction_output_hash.0;
        assert(spends(t.0, u));
        assert(cl.contains_key(u) && cl[u] == id);
    }
    assert forall|j: int|
        0 <= j < t.0.len() && pending.contains_key((#[trigger] t.0[j]).prev_transaction_output_hash.0)
            && pending[t.0[j].prev_transaction_output_hash.0].0 != txid_of(t).0 implies !pool_after_admission(
            t,
            utxos,
            pool,
            pending,
            now,
        ).contains_key(pending[t.0[j].prev_transaction_output_hash.0].0) by {
        let c = pending[t.0[j].prev_transaction_output_hash.0].0;
        assert(conflict_ids(t.0, pending).contains(c));
    }
}

/// The claims after admission, output by output: an output that an evicted transaction
/// spent and the new one does not is no longer claimed (unless a transaction with the new
/// one's hash held it already); a claim on an output that neither
/// the new transaction nor any evicted one spends stays as it was.
pub proof fn lemma_admission_releases_claims(
    t: TxModel,
    pool: Map<crate::sha256::Hash, EntryModel>,
    pending: Map<crate::sha256::Hash, Txid>,
    v: crate::sha256::Hash,
)
    ensures
        (exists|c: crate::sha256::Hash|
            conflict_ids(t.0, pending).contains(c) && pool.contains_key(c) && #[trigger] spends(pool[c].2.0, v))
            && !spends(t.0, v) && (pending.contains_key(v) ==> pending[v] != txid_of(t))
            ==> !claims_after_admission(t, pool, pending).contains_key(v),
        pending.contains_key(v) && !spends(t.0, v) && !(exists|c: crate::sha256::Hash|
            conflict_ids(t.0, pending).contains(c) && pool.contains_key(c) && #[trigger] spends(pool[c].2.0, v)) ==> {
            &&& claims_after_admission(t, pool, pending).contains_key(v)
            &&& claims_after_admission(t, pool, pending)[v] == pending[v]
        },
{
    let id = txid_of(t);
    let cl = claim_inputs(pending, t.0, id);
    let gone = inputs_of(pool, conflict_ids(t.0, pending));
    if !spends(t.0, v) {
        assert(cl.contains_key(v) == pending.contains_key(v));
        if cl.contains_key(v) {
            assert(cl[v] == pending[v]);
        }
        if exists|c: crate::sha256::Hash|
            conflict_ids(t.0, pending).contains(c) && pool.contains_key(c) && #[trigger] spends(pool[c].2.0, v) {
            assert(gone.contains(v));
        }
    }
}

/// The mempool admits a transaction exactly when its inputs resolve and are signed, it
/// spends at least what it creates, and every transaction already claiming an output it
/// spends pays a strictly smaller fee than it does.
pub proof fn lemma_admission_condition(
    t: TxModel,
    utxos: Map<crate::sha256::Hash, TransactionOutput>,
    pool: Map<crate::sha256::Hash, EntryModel>,
    pending: Map<crate::sha256::Hash, Txid>,
)
    ensures
        admits(t, utxos, pool, pending) <==> {
            &&& resolves(t, utxos)
            &&& inputs_signed(t, utxos)
            &&& input_value(t, utxos) >= output_value(t)
            &&& forall|j: int|
                0 <= j < t.0.len() && pending.contains_key((#[trigger] t.0[j]).prev_transaction_output_hash.0)
                    ==> pool[pending[t.0[j].prev_transaction_output_hash.0].0].1 < input_value(t, utxos)
                    - output_value(t)
        },
{
}

/// After expiry at `now` no expired transaction is left, and every transaction that
/// had not expired is still there.
pub proof fn lemma_expiry_exact(pool: Map<crate::sha256::Hash, EntryModel>, now: Timestamp)
    ensures
        forall|h: crate::sha256::Hash| #[trigger] pool.remove_keys(expired_ids(pool, now)).contains_key(h)
            ==> !expired(pool[h], now),
        forall|h: crate::sha256::Hash|
            pool.contains_key(h) && !expired(pool[h], now) ==> #[trigger] pool.remove_keys(
                expired_ids(pool, now),
            ).contains_key(h),
{
}

} // verus!
