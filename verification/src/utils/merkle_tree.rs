use vstd::prelude::*;
use crate::codec::put_bytes;
use crate::types::transaction::{Transaction, TxModel, txid_of};

verus! {

/// The root of the binary hash tree over a block's transactions.
#[derive(Clone, Copy, Debug, PartialEq, Eq, Structural)]
pub struct MerkleRoot(pub crate::sha256::Hash);

/// The parent of two nodes: the hash of their bytes, left then right.
pub open spec fn merkle_pair(a: crate::sha256::Hash, b: crate::sha256::Hash) -> crate::sha256::Hash {
    crate::sha256::Hash::of_bytes(a.bytes() + b.bytes())
}

/// The layer above: nodes paired left to right, a last node without a partner paired
/// with itself.
pub open spec fn merkle_parent_layer(layer: Seq<crate::sha256::Hash>) -> Seq<crate::sha256::Hash> {
    Seq::new(
        ((layer.len() + 1) / 2) as nat,
        |i: int|
            merkle_pair(
                layer[2 * i],
                if 2 * i + 1 < layer.len() {
                    layer[2 * i + 1]
                } else {
                    layer[2 * i]
                },
            ),
    )
}

/// The single node that repeated pairing of a nonempty layer ends in.
pub open spec fn merkle_fold(layer: Seq<crate::sha256::Hash>) -> crate::sha256::Hash
    decreases layer.len(),
{
    if layer.len() <= 1 {
        layer[0]
    } else {
        merkle_fold(merkle_parent_layer(layer))
    }
}

/// The merkle root of a sequence of transactions: the fold of their identifiers.
pub open spec fn merkle_root_of(txs: Seq<TxModel>) -> MerkleRoot {
    MerkleRoot(merkle_fold(txs.map_values(|t: TxModel| txid_of(t).0)))
}


/// The merkle root of a single transaction is its identifier.
pub proof fn lemma_single_transaction_root(t: TxModel)
    ensures
        merkle_root_of(seq![t]) == MerkleRoot(txid_of(t).0),
{
    assert(seq![t].map_values(|x: TxModel| txid_of(x).0) =~= seq![txid_of(t).0]);
}

/// Each node of the layer above is the pair hash of a node and its right neighbour,
/// taken two by two from the left; only a last node without a neighbour is paired with
/// itself, and the layer above has half as many nodes, rounded up.
pub proof fn lemma_parent_nodes(layer: Seq<crate::sha256::Hash>, i: int)
    requires
        0 <= i,
        2 * i < layer.len(),
    ensures
        merkle_parent_layer(layer).len() == (layer.len() + 1) / 2,
        2 * i + 1 < layer.len() ==> merkle_parent_layer(layer)[i] == merkle_pair(layer[2 * i], layer[2 * i + 1]),
        2 * i + 1 == layer.len() ==> merkle_parent_layer(layer)[i] == merkle_pair(layer[2 * i], layer[2 * i]),
{
}

/// The merkle root of two transactions is the pair hash of their identifiers, the first
/// on the left and the second on the right.
pub proof fn lemma_two_transaction_root(a: TxModel, b: TxModel)
    ensures
        merkle_root_of(seq![a, b]) == MerkleRoot(merkle_pair(txid_of(a).0, txid_of(b).0)),
{
    let leaves = seq![a, b].map_values(|t: TxModel| txid_of(t).0);
    assert(leaves =~= seq![txid_of(a).0, txid_of(b).0]);
    let up = merkle_parent_layer(leaves);
    assert(up.len() == 1);
    assert(up[0] == merkle_pair(txid_of(a).0, txid_of(b).0));
    assert(merkle_fold(up) == up[0]);
}

/// The merkle root of three transactions pairs the first two, pairs the third with
/// itself, and pairs the two results.
pub proof fn lemma_three_transaction_root(a: TxModel, b: TxModel, c: TxModel)
    ensures
        merkle_root_of(seq![a, b, c]) == MerkleRoot(
            merkle_pair(
                merkle_pair(txid_of(a).0, txid_of(b).0),
                merkle_pair(txid_of(c).0, txid_of(c).0),
            ),
        ),
{
    let (ha, hb, hc) = (txid_of(a).0, txid_of(b).0, txid_of(c).0);
    let leaves = seq![a, b, c].map_values(|t: TxModel| txid_of(t).0);
    assert(leaves =~= seq![ha, hb, hc]);
    let up = merkle_parent_layer(leaves);
    assert(up.len() == 2);
    assert(up[0] == merkle_pair(ha, hb));
    assert(up[1] == merkle_pair(hc, hc));
    let top = merkle_parent_layer(up);
    assert(top.len() == 1);
    assert(top[0] == merkle_pair(up[0], up[1]));
    assert(merkle_fold(top) == top[0]);
    assert(merkle_fold(up) == merkle_fold(top));
}

/// The parent of two nodes.
fn pair_hash(a: &crate::sha256::Hash, b: &crate::sha256::Hash) -> (r: crate::sha256::Hash)
    ensures
        r == merkle_pair(*a, *b),
{
    let mut bytes: Vec<u8> = Vec::new();
    put_bytes(&mut bytes, &a.as_bytes());
    put_bytes(&mut bytes, &b.as_bytes());
    assert(bytes@ =~= a.bytes() + b.bytes());
    crate::sha256::Hash::hash(bytes.as_slice())
}

impl MerkleRoot {
    /// The merkle root of a nonempty list of transactions.
    pub fn calculate(transactions: &[Transaction]) -> (r: MerkleRoot)
        requires
            transactions@.len() > 0,
        ensures
            r == merkle_root_of(transactions@.map_values(|t: Transaction| t@)),
    {
        let ghost leaves = transactions@.map_values(|t: Transaction| t@).map_values(
            |t: TxModel| txid_of(t).0,
        );
        let mut layer: Vec<crate::sha256::Hash> = Vec::new();
        let mut i: usize = 0;
        while i < transactions.len()
            invariant
                i <= transactions@.len(),
                leaves.len() == transactions@.len(),
                forall|j: int| 0 <= j < transactions@.len() ==> #[trigger] leaves[j] == txid_of(transactions@[j]@).0,
                layer@ == leaves.subrange(0, i as int),
            decreases transactions@.len() - i,
        {
            let h = transactions[i].hash();
            layer.push(h.0);
            i = i + 1;
            assert(layer@ =~= leaves.subrange(0, i as int));
        }
        assert(layer@ =~= leaves);
        while layer.len() > 1
            invariant
                layer@.len() >= 1,
                merkle_fold(layer@) == merkle_fold(leaves),
            decreases layer@.len(),
        {
            let n = layer.len();
            let parents = n / 2 + n % 2;
            let ghost up = merkle_parent_layer(layer@);
            let mut next: Vec<crate::sha256::Hash> = Vec::new();
            let mut k: usize = 0;
            while k < parents
                invariant
                    n == layer@.len(),
                    n >= 2,
                    parents == (n + 1) / 2,
                    k <= parents,
                    up == merkle_parent_layer(layer@),
                    next@ == up.subrange(0, k as int),
                decreases parents - k,
            {
                let left = layer[2 * k];
                let right = if 2 * k + 1 < n {
                    layer[2 * k + 1]
                } else {
                    layer[2 * k]
                };
                let p = pair_hash(&left, &right);
                next.push(p);
                k = k + 1;
                assert(next@ =~= up.subrange(0, k as int));
            }
            assert(next@ =~= up);
            layer = next;
        }
        MerkleRoot(layer[0])
    }
}

} // verus!
