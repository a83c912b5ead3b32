use vstd::prelude::*;
use crate::codec::{put_bytes, put_u128, put_u64, u128_be_bytes};
use crate::crypto::{PublicKey, Signature};
use crate::error::BtcError;
use crate::sha256::{Txid, UtxoHash};
use crate::u256::u64_be_bytes;
use crate::utils::lookup::LookupTable;

verus! {

/// Calls `uuid::Uuid::new_v4` and returns the identifier as `as_u128` reads it. The result
/// is random; nothing is claimed of it.
#[verifier::external_body]
pub(crate) fn new_unique_id() -> (r: u128) {
    uuid::Uuid::new_v4().as_u128()
}

/// A reference to an unspent output, with the signature that unlocks it.
#[derive(Clone, Copy, Debug)]
pub struct TransactionInput {
    pub prev_transaction_output_hash: UtxoHash,
    pub signature: Signature,
}

/// An amount of satoshis locked to a public key.
#[derive(Clone, Copy, Debug)]
pub struct TransactionOutput {
    pub value: u64,
    pub unique_id: u128,
    pub pubkey: PublicKey,
}

/// A transfer: the outputs it spends and the outputs it creates.
pub struct Transaction {
    pub inputs: Vec<TransactionInput>,
    pub outputs: Vec<TransactionOutput>,
}

/// What a transaction holds: its inputs and its outputs.
pub type TxModel = (Seq<TransactionInput>, Seq<TransactionOutput>);

impl View for TransactionOutput {
    type V = TransactionOutput;

    open spec fn view(&self) -> TransactionOutput {
        *self
    }
}

impl View for Transaction {
    type V = TxModel;

    open spec fn view(&self) -> TxModel {
        (self.inputs@, self.outputs@)
    }
}

impl Clone for Transaction {
    fn clone(&self) -> (r: Transaction)
        ensures
            r@ == self@,
    {
        let r = Transaction { inputs: self.inputs.clone(), outputs: self.outputs.clone() };
        assert(r.inputs@ =~= self.inputs@);
        assert(r.outputs@ =~= self.outputs@);
        r
    }
}

/// The bytes of an input in hashed data.
pub open spec fn encode_input(i: TransactionInput) -> Seq<u8> {
    i.prev_transaction_output_hash.0.bytes() + i.signature.0@
}

/// The bytes of an output in hashed data.
pub open spec fn encode_output(o: TransactionOutput) -> Seq<u8> {
    u64_be_bytes(o.value) + u128_be_bytes(o.unique_id) + o.pubkey.0@
}

/// The inputs' encodings one after the other.
pub open spec fn encode_inputs(s: Seq<TransactionInput>) -> Seq<u8>
    decreases s.len(),
{
    if s.len() == 0 {
        Seq::empty()
    } else {
        encode_inputs(s.drop_last()) + encode_input(s.last())
    }
}

/// The outputs' encodings one after the other.
pub open spec fn encode_outputs(s: Seq<TransactionOutput>) -> Seq<u8>
    decreases s.len(),
{
    if s.len() == 0 {
        Seq::empty()
    } else {
        encode_outputs(s.drop_last()) + encode_output(s.last())
    }
}

/// The bytes of a transaction in hashed data: the number of inputs, the inputs, the
/// number of outputs and the outputs.
pub open spec fn encode_transaction(t: TxModel) -> Seq<u8> {
    u64_be_bytes(t.0.len() as u64) + encode_inputs(t.0) + u64_be_bytes(t.1.len() as u64)
        + encode_outputs(t.1)
}

/// The identifier of a transaction: the hash of its bytes.
pub open spec fn txid_of(t: TxModel) -> Txid {
    Txid(crate::sha256::Hash::of_bytes(encode_transaction(t)))
}

/// The identifier of an output: the hash of its bytes.
pub open spec fn utxo_hash_of(o: TransactionOutput) -> UtxoHash {
    UtxoHash(crate::sha256::Hash::of_bytes(encode_output(o)))
}

/// The sum of the outputs' values.
pub open spec fn sum_values(s: Seq<TransactionOutput>) -> int
    decreases s.len(),
{
    if s.len() == 0 {
        0
    } else {
        sum_values(s.drop_last()) + s.last().value
    }
}

/// The value of outputs adds up: the outputs of two lists together are worth what each
/// list is worth, summed.
pub proof fn lemma_sum_values_concat(a: Seq<TransactionOutput>, b: Seq<TransactionOutput>)
    ensures
        sum_values(a + b) == sum_values(a) + sum_values(b),
    decreases b.len(),
{
    if b.len() == 0 {
        assert(a + b =~= a);
    } else {
        assert((a + b).drop_last() =~= a + b.drop_last());
        assert((a + b).last() == b.last());
        lemma_sum_values_concat(a, b.drop_last());
    }
}

/// No two inputs spend the same output.
pub open spec fn inputs_distinct(ins: Seq<TransactionInput>) -> bool {
    forall|i: int, j: int|
        0 <= i < ins.len() && 0 <= j < ins.len() && i != j ==> ins[i].prev_transaction_output_hash
            != ins[j].prev_transaction_output_hash
}

/// Every input spends an output of the set.
pub open spec fn inputs_known(ins: Seq<TransactionInput>, utxos: Map<crate::sha256::Hash, TransactionOutput>) -> bool {
    forall|i: int| 0 <= i < ins.len() ==> utxos.contains_key(#[trigger] ins[i].prev_transaction_output_hash.0)
}

/// The inputs of a transaction can be resolved against a set of unspent outputs.
pub open spec fn resolves(t: TxModel, utxos: Map<crate::sha256::Hash, TransactionOutput>) -> bool {
    inputs_distinct(t.0) && inputs_known(t.0, utxos)
}

/// The outputs that the inputs spend.
pub open spec fn spent_outputs(t: TxModel, utxos: Map<crate::sha256::Hash, TransactionOutput>) -> Seq<TransactionOutput> {
    t.0.map_values(|i: TransactionInput| utxos[i.prev_transaction_output_hash.0])
}

/// The total value of the outputs a transaction spends.
pub open spec fn input_value(t: TxModel, utxos: Map<crate::sha256::Hash, TransactionOutput>) -> int {
    sum_values(spent_outputs(t, utxos))
}

/// The total value of the outputs a transaction creates.
pub open spec fn output_value(t: TxModel) -> int {
    sum_values(t.1)
}

/// The value a transaction spends covers what it creates.
pub open spec fn spend_ok(t: TxModel, utxos: Map<crate::sha256::Hash, TransactionOutput>) -> bool {
    resolves(t, utxos) && input_value(t, utxos) >= output_value(t)
}

/// Summing a transaction's values does not overflow a 64-bit word, once its inputs resolve.
pub open spec fn sums_fit(t: TxModel, utxos: Map<crate::sha256::Hash, TransactionOutput>) -> bool {
    resolves(t, utxos) ==> input_value(t, utxos) <= u64::MAX && output_value(t) <= u64::MAX
}

/// A prefix of a sequence of outputs sums to at most the whole.
pub proof fn lemma_sum_values_prefix(s: Seq<TransactionOutput>, i: int)
    requires
        0 <= i <= s.len(),
    ensures
        0 <= sum_values(s.subrange(0, i)) <= sum_values(s),
    decreases s.len() - i,
{
    if i < s.len() {
        lemma_sum_values_prefix(s, i + 1);
        assert(s.subrange(0, i + 1).drop_last() =~= s.subrange(0, i));
        lemma_sum_values_nonneg(s.subrange(0, i));
    } else {
        assert(s.subrange(0, i) =~= s);
        lemma_sum_values_nonneg(s);
    }
}

/// Sums of values are never negative.
pub proof fn lemma_sum_values_nonneg(s: Seq<TransactionOutput>)
    ensures
        sum_values(s) >= 0,
    decreases s.len(),
{
    if s.len() > 0 {
        lemma_sum_values_nonneg(s.drop_last());
    }
}

/// Sums the values of outputs; the sum must fit in 64 bits.
pub fn sum_output_values(s: &Vec<TransactionOutput>) -> (r: u64)
    requires
        sum_values(s@) <= u64::MAX,
    ensures
        r == sum_values(s@),
{
    let mut acc: u64 = 0;
    let mut i: usize = 0;
    proof {
        assert(s@.subrange(0, 0) =~= Seq::<TransactionOutput>::empty());
    }
    while i < s.len()
        invariant
            i <= s@.len(),
            sum_values(s@) <= u64::MAX,
            acc == sum_values(s@.subrange(0, i as int)),
        decreases s@.len() - i,
    {
        proof {
            assert(s@.subrange(0, i + 1).drop_last() =~= s@.subrange(0, i as int));
            lemma_sum_values_prefix(s@, i + 1);
        }
        acc = acc + s[i].value;
        i = i + 1;
    }
    proof {
        assert(s@.subrange(0, s@.len() as int) =~= s@);
    }
    acc
}

/// Sums the values of outputs, if the sum fits in 64 bits.
pub fn checked_sum_values(s: &Vec<TransactionOutput>) -> (r: Option<u64>)
    ensures
        r is Some <==> sum_values(s@) <= u64::MAX,
        r matches Some(v) ==> v == sum_values(s@),
{
    let mut acc: u64 = 0;
    let mut i: usize = 0;
    proof {
        assert(s@.subrange(0, 0) =~= Seq::<TransactionOutput>::empty());
    }
    while i < s.len()
        invariant
            i <= s@.len(),
            acc == sum_values(s@.subrange(0, i as int)),
        decreases s@.len() - i,
    {
        proof {
            assert(s@.subrange(0, i + 1).drop_last() =~= s@.subrange(0, i as int));
        }
        match acc.checked_add(s[i].value) {
            Some(v) => {
                acc = v;
            },
            None => {
                proof {
                    lemma_sum_values_prefix(s@, i + 1);
                }
                return None;
            },
        }
        i = i + 1;
    }
    proof {
        assert(s@.subrange(0, s@.len() as int) =~= s@);
    }
    Some(acc)
}

/// The outputs that resolved inputs spend, in order.
pub fn spent_values(resolved: &Vec<(TransactionInput, TransactionOutput)>) -> (r: Vec<TransactionOutput>)
    ensures
        r@ == resolved@.map_values(|p: (TransactionInput, TransactionOutput)| p.1),
{
    let mut spent: Vec<TransactionOutput> = Vec::new();
    let mut i: usize = 0;
    while i < resolved.len()
        invariant
            i <= resolved@.len(),
            spent@ == resolved@.subrange(0, i as int).map_values(|p: (TransactionInput, TransactionOutput)| p.1),
        decreases resolved@.len() - i,
    {
        spent.push(resolved[i].1);
        i = i + 1;
        proof {
            assert(spent@ =~= resolved@.subrange(0, i as int).map_values(
                |p: (TransactionInput, TransactionOutput)| p.1,
            ));
        }
    }
    proof {
        assert(resolved@.subrange(0, resolved@.len() as int) =~= resolved@);
    }
    spent
}

impl TransactionInput {
    pub fn new(prev_transaction_output_hash: UtxoHash, signature: Signature) -> (r: Self)
        ensures
            r.prev_transaction_output_hash == prev_transaction_output_hash,
            r.signature == signature,
    {
        TransactionInput { prev_transaction_output_hash, signature }
    }

    /// Appends the encoding of this input to a buffer.
    pub fn write_to(&self, out: &mut Vec<u8>)
        ensures
            final(out)@ == old(out)@ + encode_input(*self),
    {
        let h = self.prev_transaction_output_hash.0.as_bytes();
        put_bytes(out, &h);
        put_bytes(out, &self.signature.0);
        assert(out@ =~= old(out)@ + encode_input(*self));
    }
}

impl TransactionOutput {
    pub fn new(value: u64, unique_id: u128, pubkey: PublicKey) -> (r: Self)
        ensures
            r.value == value,
            r.unique_id == unique_id,
            r.pubkey == pubkey,
    {
        TransactionOutput { value, unique_id, pubkey }
    }

    /// Appends the encoding of this output to a buffer.
    pub fn write_to(&self, out: &mut Vec<u8>)
        ensures
            final(out)@ == old(out)@ + encode_output(*self),
    {
        put_u64(out, self.value);
        put_u128(out, self.unique_id);
        put_bytes(out, &self.pubkey.0);
        assert(out@ =~= old(out)@ + encode_output(*self));
    }

    /// The identifier of this output.
    pub fn hash(&self) -> (r: UtxoHash)
        ensures
            r == utxo_hash_of(*self),
    {
        let mut bytes: Vec<u8> = Vec::new();
        self.write_to(&mut bytes);
        assert(bytes@ =~= encode_output(*self));
        UtxoHash(crate::sha256::Hash::hash(bytes.as_slice()))
    }
}

impl Transaction {
    pub fn new(inputs: Vec<TransactionInput>, outputs: Vec<TransactionOutput>) -> (r: Self)
        ensures
            r@ == (inputs@, outputs@),
    {
        Transaction { inputs, outputs }
    }

    /// Appends the encoding of this transaction to a buffer.
    pub fn write_to(&self, out: &mut Vec<u8>)
        ensures
            final(out)@ == old(out)@ + encode_transaction(self@),
    {
        let ghost start = out@;
        put_u64(out, self.inputs.len() as u64);
        let ghost mid = out@;
        let mut i: usize = 0;
        proof {
            assert(self.inputs@.subrange(0, 0) =~= Seq::<TransactionInput>::empty());
            assert(out@ =~= mid + encode_inputs(self.inputs@.subrange(0, 0)));
        }
        while i < self.inputs.len()
            invariant
                i <= self.inputs@.len(),
                out@ == mid + encode_inputs(self.inputs@.subrange(0, i as int)),
            decreases self.inputs@.len() - i,
        {
            self.inputs[i].write_to(out);
            proof {
                assert(self.inputs@.subrange(0, i + 1).drop_last() =~= self.inputs@.subrange(0, i as int));
                assert(out@ =~= mid + encode_inputs(self.inputs@.subrange(0, i + 1)));
            }
            i = i + 1;
        }
        proof {
            assert(self.inputs@.subrange(0, self.inputs@.len() as int) =~= self.inputs@);
        }
        put_u64(out, self.outputs.len() as u64);
        let ghost mid2 = out@;
        let mut j: usize = 0;
        proof {
            assert(self.outputs@.subrange(0, 0) =~= Seq::<TransactionOutput>::empty());
            assert(out@ =~= mid2 + encode_outputs(self.outputs@.subrange(0, 0)));
        }
        while j < self.outputs.len()
            invariant
                j <= self.outputs@.len(),
                out@ == mid2 + encode_outputs(self.outputs@.subrange(0, j as int)),
            decreases self.outputs@.len() - j,
        {
            self.outputs[j].write_to(out);
            proof {
                assert(self.outputs@.subrange(0, j + 1).drop_last() =~= self.outputs@.subrange(0, j as int));
                assert(out@ =~= mid2 + encode_outputs(self.outputs@.subrange(0, j + 1)));
            }
            j = j + 1;
        }
        proof {
            assert(self.outputs@.subrange(0, self.outputs@.len() as int) =~= self.outputs@);
            assert(out@ =~= start + encode_transaction(self@));
        }
    }

    /// The identifier of this transaction.
    pub fn hash(&self) -> (r: Txid)
        ensures
            r == txid_of(self@),
    {
        let mut bytes: Vec<u8> = Vec::new();
        self.write_to(&mut bytes);
        assert(bytes@ =~= encode_transaction(self@));
        Txid(crate::sha256::Hash::hash(bytes.as_slice()))
    }

    /// Pairs each input with the output it spends, refusing an input that spends the same
    /// output as an earlier one or an output that `utxos` does not hold.
    pub fn resolve_inputs(&self, utxos: &LookupTable<TransactionOutput>) -> (r: Result<
        Vec<(TransactionInput, TransactionOutput)>,
        BtcError,
    >)
        requires
            utxos.wf(),
        ensures
            r is Ok <==> resolves(self@, utxos@),
            r matches Err(e) ==> e is InvalidTransaction,
            r matches Ok(v) ==> v@ == self.inputs@.map_values(
                |i: TransactionInput| (i, utxos@[i.prev_transaction_output_hash.0]),
            ),
    {
        let mut out: Vec<(TransactionInput, TransactionOutput)> = Vec::new();
        let mut i: usize = 0;
        while i < self.inputs.len()
            invariant
                utxos.wf(),
                i <= self.inputs@.len(),
                inputs_distinct(self.inputs@.subrange(0, i as int)),
                inputs_known(self.inputs@.subrange(0, i as int), utxos@),
                out@ == self.inputs@.subrange(0, i as int).map_values(
                    |x: TransactionInput| (x, utxos@[x.prev_transaction_output_hash.0]),
                ),
            decreases self.inputs@.len() - i,
        {
            let input = self.inputs[i];
            let mut j: usize = 0;
            while j < i
                invariant
                    i < self.inputs@.len(),
                    j <= i,
                    input == self.inputs@[i as int],
                    forall|m: int| 0 <= m < j ==> self.inputs@[m].prev_transaction_output_hash
                        != input.prev_transaction_output_hash,
                decreases i - j,
            {
                if self.inputs[j].prev_transaction_output_hash.0.same(&input.prev_transaction_output_hash.0) {
                    proof {
                        assert(!inputs_distinct(self.inputs@)) by {
                            assert(self.inputs@[j as int].prev_transaction_output_hash
                                == self.inputs@[i as int].prev_transaction_output_hash);
                        }
                    }
                    return Err(BtcError::InvalidTransaction);
                }
                j = j + 1;
            }
            match utxos.get(&input.prev_transaction_output_hash.0) {
                Some(prev) => {
                    out.push((input, *prev));
                },
                None => {
                    proof {
                        assert(!inputs_known(self.inputs@, utxos@));
                    }
                    return Err(BtcError::InvalidTransaction);
                },
            }
            proof {
                let p = self.inputs@.subrange(0, i + 1);
                assert(p.drop_last() =~= self.inputs@.subrange(0, i as int));
                assert(inputs_distinct(p)) by {
                    assert forall|a: int, b: int| 0 <= a < p.len() && 0 <= b < p.len() && a != b
                        implies p[a].prev_transaction_output_hash != p[b].prev_transaction_output_hash by {
                        if a < i && b < i {
                            assert(self.inputs@.subrange(0, i as int)[a] == p[a]);
                            assert(self.inputs@.subrange(0, i as int)[b] == p[b]);
                        }
                    }
                }
                assert(inputs_known(p, utxos@)) by {
                    assert forall|a: int| 0 <= a < p.len() implies utxos@.contains_key(
                        #[trigger] p[a].prev_transaction_output_hash.0) by {
                        if a < i {
                            assert(self.inputs@.subrange(0, i as int)[a] == p[a]);
                        }
                    }
                }
                assert(out@ =~= p.map_values(
                    |x: TransactionInput| (x, utxos@[x.prev_transaction_output_hash.0]),
                ));
            }
            i = i + 1;
        }
        proof {
            assert(self.inputs@.subrange(0, self.inputs@.len() as int) =~= self.inputs@);
        }
        Ok(out)
    }

    /// Sums the values of the resolved inputs and of the outputs, refusing a transaction
    /// whose outputs are worth more than its inputs. Returns `(input_value, output_value)`.
    pub fn verified_spend(&self, resolved_inputs: Vec<(TransactionInput, TransactionOutput)>) -> (r:
        Result<(u64, u64), BtcError>)
        requires
            sum_values(resolved_inputs@.map_values(|p: (TransactionInput, TransactionOutput)| p.1))
                <= u64::MAX,
            sum_values(self.outputs@) <= u64::MAX,
        ensures
            ({
                let iv = sum_values(
                    resolved_inputs@.map_values(|p: (TransactionInput, TransactionOutput)| p.1),
                );
                let ov = sum_values(self.outputs@);
                &&& r is Ok <==> iv >= ov
                &&& r matches Ok(sums) ==> sums.0 == iv && sums.1 == ov
                &&& r matches Err(e) ==> e is InvalidTransaction
            }),
    {
        let spent = spent_values(&resolved_inputs);
        let input_value = sum_output_values(&spent);
        let output_value = sum_output_values(&self.outputs);
        if input_value < output_value {
            return Err(BtcError::InvalidTransaction);
        }
        Ok((input_value, output_value))
    }
}

} // verus!
