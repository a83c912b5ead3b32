use vstd::prelude::*;
use std::path::PathBuf;
use crate::crypto::{PrivateKey, PublicKey, Signature, ecdsa_sign};
use crate::types::transaction::{
    Transaction, TransactionInput, TransactionOutput, new_unique_id, sum_values, utxo_hash_of,
};

verus! {

#[verifier::external_type_specification]
#[verifier::external_body]
pub struct ExPathBuf(PathBuf);

/// Where one key pair of the wallet is stored: the files of its public and private halves.
pub struct Key {
    public: PathBuf,
    private: PathBuf,
}

impl Key {
    /// The file of the public half.
    pub closed spec fn public_path(&self) -> PathBuf {
        self.public
    }

    /// The file of the private half.
    pub closed spec fn private_path(&self) -> PathBuf {
        self.private
    }

    pub fn new(public: PathBuf, private: PathBuf) -> (r: Key)
        ensures
            r.public_path() == public,
            r.private_path() == private,
    {
        Key { public, private }
    }

    /// The file of the public half.
    pub fn public(&self) -> (r: &PathBuf)
        ensures
            *r == self.public_path(),
    {
        &self.public
    }

    /// The file of the private half.
    pub fn private(&self) -> (r: &PathBuf)
        ensures
            *r == self.private_path(),
    {
        &self.private
    }
}

/// A contact: a name and the file of their public key.
pub struct Recipient {
    pub name: String,
    pub key: PathBuf,
}

/// A key pair of the wallet, read from its files.
#[derive(Clone, Copy, Debug)]
pub struct LoadedKey {
    pub public: PublicKey,
    pub private: PrivateKey,
}

/// A contact's public key, read from its file.
#[derive(Clone, Copy, Debug)]
pub struct LoadedRecipient {
    pub key: PublicKey,
}

/// Why the wallet cannot build a transaction.
#[derive(Clone, Copy, Debug, PartialEq, Eq, Structural)]
pub enum WalletError {
    /// An output to be spent is locked to a key whose private half the wallet lacks.
    KeyNotFound,
    /// The unspent outputs do not cover the amount and the fee.
    InsufficientFunds,
    /// Signing an input failed: the deterministic nonce gave a zero `r` or `s`.
    SigningFailed,
}

/// The wallet holds the private half of `pk`.
pub open spec fn has_key(keys: Seq<LoadedKey>, pk: PublicKey) -> bool {
    exists|i: int| 0 <= i < keys.len() && #[trigger] keys[i].public == pk
}

/// `i` is the first position of `pk` among the wallet's keys.
pub open spec fn is_first_key(keys: Seq<LoadedKey>, pk: PublicKey, i: int) -> bool {
    &&& 0 <= i < keys.len()
    &&& keys[i].public == pk
    &&& forall|m: int| 0 <= m < i ==> #[trigger] keys[m].public != pk
}

/// The private half that goes with the first occurrence of `pk` among the wallet's keys.
pub open spec fn key_for(keys: Seq<LoadedKey>, pk: PublicKey) -> PrivateKey {
    keys[choose|i: int| is_first_key(keys, pk, i)].private
}

/// The outputs of one public key, each with whether a pending transaction already spends it,
/// tagged with the key.
pub open spec fn tagged(pk: PublicKey, outs: Seq<(bool, TransactionOutput)>) -> Seq<(PublicKey, bool, TransactionOutput)> {
    outs.map_values(|p: (bool, TransactionOutput)| (pk, p.0, p.1))
}

/// All the wallet's outputs, key after key, in the order the keys come.
pub open spec fn wallet_items(e: Seq<(PublicKey, Vec<(bool, TransactionOutput)>)>) -> Seq<(PublicKey, bool, TransactionOutput)>
    decreases e.len(),
{
    if e.len() == 0 {
        Seq::empty()
    } else {
        wallet_items(e.drop_last()) + tagged(e.last().0, e.last().1@)
    }
}

/// The total value of the outputs, spoken for or not.
pub open spec fn items_value(items: Seq<(PublicKey, bool, TransactionOutput)>) -> int
    decreases items.len(),
{
    if items.len() == 0 {
        0
    } else {
        items_value(items.drop_last()) + items.last().2.value
    }
}

/// The total value of chosen outputs.
pub open spec fn taken_sum(c: Seq<(PublicKey, TransactionOutput)>) -> int
    decreases c.len(),
{
    if c.len() == 0 {
        0
    } else {
        taken_sum(c.drop_last()) + c.last().1.value
    }
}

/// The outputs chosen to pay `total`: in order, each one no pending transaction spends,
/// until what is chosen covers `total`.
pub open spec fn chosen(items: Seq<(PublicKey, bool, TransactionOutput)>, total: int) -> Seq<(PublicKey, TransactionOutput)>
    decreases items.len(),
{
    if items.len() == 0 {
        Seq::empty()
    } else {
        let c = chosen(items.drop_last(), total);
        let it = items.last();
        if it.1 || taken_sum(c) >= total {
            c
        } else {
            c.push((it.0, it.2))
        }
    }
}

/// The balance adds up: the outputs of two lists together are worth what each list is
/// worth, summed, whether a pending transaction spends them or not.
pub proof fn lemma_items_value_concat(a: Seq<(PublicKey, bool, TransactionOutput)>, b: Seq<(PublicKey, bool, TransactionOutput)>)
    ensures
        items_value(a + b) == items_value(a) + items_value(b),
    decreases b.len(),
{
    if b.len() == 0 {
        assert(a + b =~= a);
    } else {
        assert((a + b).drop_last() =~= a + b.drop_last());
        assert((a + b).last() == b.last());
        lemma_items_value_concat(a, b.drop_last());
    }
}

/// The value of chosen outputs adds up over two lists taken one after the other.
pub proof fn lemma_taken_sum_concat(a: Seq<(PublicKey, TransactionOutput)>, b: Seq<(PublicKey, TransactionOutput)>)
    ensures
        taken_sum(a + b) == taken_sum(a) + taken_sum(b),
    decreases b.len(),
{
    if b.len() == 0 {
        assert(a + b =~= a);
    } else {
        assert((a + b).drop_last() =~= a + b.drop_last());
        assert((a + b).last() == b.last());
        lemma_taken_sum_concat(a, b.drop_last());
    }
}

/// The value of the unspent-by-anyone outputs adds up over two lists taken one after the
/// other.
pub proof fn lemma_unmarked_sum_concat(a: Seq<(PublicKey, bool, TransactionOutput)>, b: Seq<(PublicKey, bool, TransactionOutput)>)
    ensures
        unmarked_sum(a + b) == unmarked_sum(a) + unmarked_sum(b),
    decreases b.len(),
{
    if b.len() == 0 {
        assert(a + b =~= a);
    } else {
        assert((a + b).drop_last() =~= a + b.drop_last());
        assert((a + b).last() == b.last());
        lemma_unmarked_sum_concat(a, b.drop_last());
    }
}

/// The total value of the outputs that no pending transaction spends.
pub open spec fn unmarked_sum(items: Seq<(PublicKey, bool, TransactionOutput)>) -> int
    decreases items.len(),
{
    if items.len() == 0 {
        0
    } else {
        unmarked_sum(items.drop_last()) + if items.last().1 {
            0
        } else {
            items.last().2.value as int
        }
    }
}

proof fn lemma_chosen_sums(items: Seq<(PublicKey, bool, TransactionOutput)>, total: int)
    ensures
        taken_sum(chosen(items, total)) <= unmarked_sum(items),
        taken_sum(chosen(items, total)) >= total || taken_sum(chosen(items, total)) == unmarked_sum(items),
        forall|k: int|
            0 <= k < chosen(items, total).len() ==> exists|j: int|
                0 <= j < items.len() && !items[j].1 && items[j].0 == (#[trigger] chosen(items, total)[k]).0
                    && items[j].2 == chosen(items, total)[k].1,
    decreases items.len(),
{
    if items.len() > 0 {
        let rest = items.drop_last();
        lemma_chosen_sums(rest, total);
        let c = chosen(rest, total);
        let it = items.last();
        assert forall|k: int| 0 <= k < chosen(items, total).len() implies exists|j: int|
            0 <= j < items.len() && !items[j].1 && items[j].0 == (#[trigger] chosen(items, total)[k]).0
                && items[j].2 == chosen(items, total)[k].1 by {
            if k < c.len() {
                assert(chosen(items, total)[k] == c[k]);
                let j = choose|j: int|
                    0 <= j < rest.len() && !rest[j].1 && rest[j].0 == (#[trigger] c[k]).0 && rest[j].2 == c[k].1;
                assert(items[j] == rest[j]);
            } else {
                assert(items[items.len() - 1] == it);
            }
        }
        if !(it.1 || taken_sum(c) >= total) {
            assert(chosen(items, total).drop_last() =~= c);
        }
    }
}

/// Coin selection: the chosen outputs cover a total exactly when the outputs no pending
/// transaction spends do, and every chosen output is one of those, with its key.
pub proof fn lemma_selection_covers(items: Seq<(PublicKey, bool, TransactionOutput)>, total: int)
    ensures
        taken_sum(chosen(items, total)) >= total <==> unmarked_sum(items) >= total,
        forall|k: int|
            0 <= k < chosen(items, total).len() ==> exists|j: int|
                0 <= j < items.len() && !items[j].1 && items[j].0 == (#[trigger] chosen(items, total)[k]).0
                    && items[j].2 == chosen(items, total)[k].1,
{
    lemma_chosen_sums(items, total);
}

/// The first failure met while signing the chosen outputs in order: an output locked to
/// a key the wallet lacks, or a signature that cannot be made.
pub open spec fn signing_failure(keys: Seq<LoadedKey>, c: Seq<(PublicKey, TransactionOutput)>) -> Option<WalletError>
    decreases c.len(),
{
    if c.len() == 0 {
        None
    } else {
        match signing_failure(keys, c.drop_last()) {
            Some(e) => Some(e),
            None => {
                let it = c.last();
                if !has_key(keys, it.0) {
                    Some(WalletError::KeyNotFound)
                } else if !Signature::signs(utxo_hash_of(it.1).0, key_for(keys, it.0)) {
                    Some(WalletError::SigningFailed)
                } else {
                    None
                }
            },
        }
    }
}

/// How a payment that cannot be built is answered: the first signing failure, or else
/// insufficient funds.
pub open spec fn payment_error(keys: Seq<LoadedKey>, c: Seq<(PublicKey, TransactionOutput)>) -> WalletError {
    match signing_failure(keys, c) {
        Some(e) => e,
        None => WalletError::InsufficientFunds,
    }
}

/// A failure met in a prefix of the chosen outputs is the first failure of all of them.
proof fn lemma_failure_prefix(keys: Seq<LoadedKey>, a: Seq<(PublicKey, TransactionOutput)>, b: Seq<(PublicKey, TransactionOutput)>)
    requires
        a.len() <= b.len(),
        forall|k: int| 0 <= k < a.len() ==> #[trigger] b[k] == a[k],
        signing_failure(keys, a) is Some,
    ensures
        signing_failure(keys, b) == signing_failure(keys, a),
    decreases b.len(),
{
    if a.len() < b.len() {
        lemma_failure_prefix(keys, a, b.drop_last());
    } else {
        assert(a =~= b);
    }
}

/// The inputs spend the chosen outputs in order, each signed with the key it is locked to.
pub open spec fn inputs_for(keys: Seq<LoadedKey>, c: Seq<(PublicKey, TransactionOutput)>, ins: Seq<TransactionInput>) -> bool {
    &&& ins.len() == c.len()
    &&& forall|k: int|
        0 <= k < c.len() ==> {
            let h = utxo_hash_of(#[trigger] c[k].1);
            &&& ins[k].prev_transaction_output_hash == h
            &&& ecdsa_sign(key_for(keys, c[k].0).bytes(), h.0.bytes()) == Some(ins[k].signature.0@)
        }
}

/// The outputs of a payment: `amount` to the recipient, then the change over `total`, if
/// any, back to the wallet's first key.
pub open spec fn payment_outputs(
    keys: Seq<LoadedKey>,
    recipient: PublicKey,
    amount: u64,
    paid: int,
    total: int,
    recipient_id: u128,
    change_id: u128,
) -> Seq<TransactionOutput> {
    let pay = TransactionOutput { value: amount, unique_id: recipient_id, pubkey: recipient };
    if paid > total {
        seq![pay, TransactionOutput { value: (paid - total) as u64, unique_id: change_id, pubkey: keys[0].public }]
    } else {
        seq![pay]
    }
}

/// A payment balances: what its outputs carry plus the fee is exactly what it spends.
pub proof fn lemma_payment_balances(
    keys: Seq<LoadedKey>,
    recipient: PublicKey,
    amount: u64,
    fees: u64,
    paid: int,
    recipient_id: u128,
    change_id: u128,
)
    requires
        amount + fees <= paid <= u64::MAX,
    ensures
        sum_values(payment_outputs(keys, recipient, amount, paid, amount + fees, recipient_id, change_id)) + fees
            == paid,
{
    let outs = payment_outputs(keys, recipient, amount, paid, amount + fees, recipient_id, change_id);
    let pay = TransactionOutput { value: amount, unique_id: recipient_id, pubkey: recipient };
    assert(seq![pay].drop_last() =~= Seq::<TransactionOutput>::empty());
    assert(sum_values(Seq::<TransactionOutput>::empty()) == 0);
    assert(seq![pay].last() == pay);
    assert(sum_values(seq![pay]) == amount);
    if paid > amount + fees {
        let change = TransactionOutput {
            value: (paid - (amount + fees)) as u64,
            unique_id: change_id,
            pubkey: keys[0].public,
        };
        assert(outs == seq![pay, change]);
        assert(seq![pay, change].drop_last() =~= seq![pay]);
        assert(sum_values(seq![pay, change]) == amount + change.value);
    } else {
        assert(outs == seq![pay]);
    }
}

/// The first `i + 1` keys and their outputs are the first `i` ones and the next.
proof fn lemma_items_step(e: Seq<(PublicKey, Vec<(bool, TransactionOutput)>)>, i: int)
    requires
        0 <= i < e.len(),
    ensures
        wallet_items(e.subrange(0, i + 1)) == wallet_items(e.subrange(0, i)) + tagged(e[i].0, e[i].1@),
{
    assert(e.subrange(0, i + 1).drop_last() =~= e.subrange(0, i));
}

/// The outputs of the first keys come first among all the outputs.
proof fn lemma_items_prefix(e: Seq<(PublicKey, Vec<(bool, TransactionOutput)>)>, i: int)
    requires
        0 <= i <= e.len(),
    ensures
        wallet_items(e.subrange(0, i)).len() <= wallet_items(e).len(),
        wallet_items(e).subrange(0, wallet_items(e.subrange(0, i)).len() as int) == wallet_items(
            e.subrange(0, i),
        ),
    decreases e.len() - i,
{
    if i == e.len() {
        assert(e.subrange(0, i) =~= e);
        assert(wallet_items(e).subrange(0, wallet_items(e).len() as int) =~= wallet_items(e));
    } else {
        lemma_items_prefix(e, i + 1);
        lemma_items_step(e, i);
        let a = wallet_items(e.subrange(0, i));
        let b = wallet_items(e.subrange(0, i + 1));
        assert(wallet_items(e).subrange(0, a.len() as int) =~= wallet_items(e).subrange(0, b.len() as int).subrange(
            0,
            a.len() as int,
        ));
        assert(b.subrange(0, a.len() as int) =~= a);
    }
}

/// Once the chosen outputs cover `total`, later outputs change nothing.
proof fn lemma_chosen_saturated(items: Seq<(PublicKey, bool, TransactionOutput)>, n: int, total: int)
    requires
        0 <= n <= items.len(),
        taken_sum(chosen(items.subrange(0, n), total)) >= total,
    ensures
        chosen(items, total) == chosen(items.subrange(0, n), total),
    decreases items.len() - n,
{
    if n == items.len() {
        assert(items.subrange(0, n) =~= items);
    } else {
        let m = items.len() - 1;
        assert(items.drop_last() =~= items.subrange(0, m));
        assert(items.subrange(0, m).subrange(0, n) =~= items.subrange(0, n));
        lemma_chosen_saturated(items.subrange(0, m), n, total);
    }
}

/// The outputs chosen from a prefix come first among those chosen from the whole.
proof fn lemma_chosen_prefix(items: Seq<(PublicKey, bool, TransactionOutput)>, n: int, total: int)
    requires
        0 <= n <= items.len(),
    ensures
        chosen(items.subrange(0, n), total).len() <= chosen(items, total).len(),
        forall|k: int|
            0 <= k < chosen(items.subrange(0, n), total).len() ==> #[trigger] chosen(items, total)[k]
                == chosen(items.subrange(0, n), total)[k],
    decreases items.len() - n,
{
    if n == items.len() {
        assert(items.subrange(0, n) =~= items);
    } else {
        let m = items.len() - 1;
        assert(items.drop_last() =~= items.subrange(0, m));
        assert(items.subrange(0, m).subrange(0, n) =~= items.subrange(0, n));
        lemma_chosen_prefix(items.subrange(0, m), n, total);
    }
}

/// The first position of a key among the wallet's keys is the one `key_for` picks.
proof fn lemma_first_key(keys: Seq<LoadedKey>, pk: PublicKey, i: int)
    requires
        is_first_key(keys, pk, i),
    ensures
        key_for(keys, pk) == keys[i].private,
{
    let j = choose|j: int| is_first_key(keys, pk, j);
    assert(is_first_key(keys, pk, j));
    if j < i {
        assert(keys[j].public != pk);
    } else if i < j {
        assert(keys[i].public != pk);
    }
}

/// The private half that goes with a public key, from the wallet's keys.
pub fn find_private_key<'a>(keys: &'a Vec<LoadedKey>, pubkey: &PublicKey) -> (r: Result<&'a PrivateKey, WalletError>)
    ensures
        r is Ok <==> has_key(keys@, *pubkey),
        r matches Ok(k) ==> *k == key_for(keys@, *pubkey),
        r matches Err(e) ==> e == WalletError::KeyNotFound,
{
    let mut i: usize = 0;
    while i < keys.len()
        invariant
            i <= keys@.len(),
            forall|m: int| 0 <= m < i ==> #[trigger] keys@[m].public != *pubkey,
        decreases keys@.len() - i,
    {
        if keys[i].public.same(pubkey) {
            proof {
                lemma_first_key(keys@, *pubkey, i as int);
            }
            return Ok(&keys[i].private);
        }
        i = i + 1;
    }
    Err(WalletError::KeyNotFound)
}

/// The total value of the wallet's outputs, if it fits in 64 bits.
pub fn checked_balance(utxos: &Vec<(PublicKey, Vec<(bool, TransactionOutput)>)>) -> (r: Option<u64>)
    ensures
        r is Some <==> items_value(wallet_items(utxos@)) <= u64::MAX,
        r matches Some(v) ==> v == items_value(wallet_items(utxos@)),
{
    let ghost items = wallet_items(utxos@);
    let mut sum: u128 = 0;
    let mut i: usize = 0;
    proof {
        assert(utxos@.subrange(0, 0) =~= Seq::<(PublicKey, Vec<(bool, TransactionOutput)>)>::empty());
    }
    while i < utxos.len()
        invariant
            i <= utxos@.len(),
            items == wallet_items(utxos@),
            sum == items_value(wallet_items(utxos@.subrange(0, i as int))),
            sum <= u64::MAX,
        decreases utxos@.len() - i,
    {
        let outs = &utxos[i].1;
        let ghost before = wallet_items(utxos@.subrange(0, i as int));
        let ghost here = tagged(utxos@[i as int].0, outs@);
        proof {
            lemma_items_step(utxos@, i as int);
        }
        let mut j: usize = 0;
        while j < outs.len()
            invariant
                i < utxos@.len(),
                items == wallet_items(utxos@),
                before == wallet_items(utxos@.subrange(0, i as int)),
                wallet_items(utxos@.subrange(0, i + 1)) == before + here,
                outs@ == utxos@[i as int].1@,
                j <= outs@.len(),
                here == tagged(utxos@[i as int].0, outs@),
                sum == items_value(before + here.subrange(0, j as int)),
                sum <= u64::MAX,
            decreases outs@.len() - j,
        {
            proof {
                assert((before + here.subrange(0, j + 1)).drop_last() =~= before + here.subrange(0, j as int));
            }
            let next = sum + outs[j].1.value as u128;
            if next > 0xFFFF_FFFF_FFFF_FFFFu128 {
                proof {
                    assert((before + here).subrange(0, before.len() + j + 1) =~= before + here.subrange(0, j + 1));
                    lemma_items_value_prefix(before + here.subrange(0, j + 1), before + here);
                    lemma_items_prefix(utxos@, i + 1);
                    lemma_items_value_prefix(before + here, items);
                }
                return None;
            }
            sum = next;
            j = j + 1;
        }
        proof {
            assert(here.subrange(0, outs@.len() as int) =~= here);
        }
        i = i + 1;
    }
    proof {
        assert(utxos@.subrange(0, utxos@.len() as int) =~= utxos@);
    }
    Some(sum as u64)
}

/// Values are never negative, so the outputs of a prefix are worth at most all of them.
proof fn lemma_items_value_prefix(a: Seq<(PublicKey, bool, TransactionOutput)>, b: Seq<(PublicKey, bool, TransactionOutput)>)
    requires
        a.len() <= b.len(),
        b.subrange(0, a.len() as int) == a,
    ensures
        items_value(a) <= items_value(b),
    decreases b.len(),
{
    if a.len() < b.len() {
        assert(b.drop_last().subrange(0, a.len() as int) =~= b.subrange(0, a.len() as int));
        lemma_items_value_prefix(a, b.drop_last());
    } else {
        assert(b.subrange(0, a.len() as int) =~= b);
    }
}

/// The total value of the wallet's outputs, spoken for or not; it must fit in 64 bits.
pub fn get_balance(utxos: &Vec<(PublicKey, Vec<(bool, TransactionOutput)>)>) -> (r: u64)
    requires
        items_value(wallet_items(utxos@)) <= u64::MAX,
    ensures
        r == items_value(wallet_items(utxos@)),
{
    match checked_balance(utxos) {
        Some(v) => v,
        None => {
            proof {
                assert(false);
            }
            0
        },
    }
}

/// Values are never negative, so a prefix of the chosen outputs is worth at most all of them.
proof fn lemma_taken_sum_prefix(a: Seq<(PublicKey, TransactionOutput)>, b: Seq<(PublicKey, TransactionOutput)>)
    requires
        a.len() <= b.len(),
        forall|k: int| 0 <= k < a.len() ==> #[trigger] b[k] == a[k],
    ensures
        taken_sum(a) <= taken_sum(b),
    decreases b.len(),
{
    if a.len() < b.len() {
        lemma_taken_sum_prefix(a, b.drop_last());
    } else {
        assert(a =~= b);
    }
}

/// When signing the chosen outputs meets no failure, the first of them is locked to a
/// key the wallet holds.
proof fn lemma_first_claim_keyed(keys: Seq<LoadedKey>, c: Seq<(PublicKey, TransactionOutput)>)
    requires
        c.len() > 0,
        signing_failure(keys, c) is None,
    ensures
        has_key(keys, c[0].0),
    decreases c.len(),
{
    if c.len() > 1 {
        lemma_first_claim_keyed(keys, c.drop_last());
        assert(c.drop_last()[0] == c[0]);
    }
}

/// Chosen outputs worth something are not none.
proof fn lemma_taken_sum_empty(c: Seq<(PublicKey, TransactionOutput)>)
    requires
        c.len() == 0,
    ensures
        taken_sum(c) == 0,
{
}

/// Builds a payment of `amount` to `recipient` with fee `fees`: spends the wallet's outputs
/// in order, skipping those a pending transaction already spends, until they cover
/// `amount + fees`, each input signed with the key its output is locked to. The
/// recipient's output carries `recipient_id`; change, if any, goes back to the wallet's
/// first key under `change_id`.
pub fn create_transaction_with(
    keys: &Vec<LoadedKey>,
    utxos: &Vec<(PublicKey, Vec<(bool, TransactionOutput)>)>,
    recipient: &PublicKey,
    amount: u64,
    fees: u64,
    recipient_id: u128,
    change_id: u128,
) -> (r: Result<Transaction, WalletError>)
    requires
        amount + fees <= u64::MAX,
        taken_sum(chosen(wallet_items(utxos@), amount + fees)) <= u64::MAX,
    ensures
        ({
            let total = amount + fees;
            let c = chosen(wallet_items(utxos@), total);
            &&& r is Ok <==> signing_failure(keys@, c) is None && taken_sum(c) >= total
            &&& r matches Err(e) ==> e == payment_error(keys@, c)
            &&& r matches Ok(tx) ==> inputs_for(keys@, c, tx@.0) && tx@.1 == payment_outputs(
                keys@,
                *recipient,
                amount,
                taken_sum(c),
                total,
                recipient_id,
                change_id,
            )
        }),
{
    let total = amount + fees;
    let ghost items = wallet_items(utxos@);
    let ghost all = chosen(items, total as int);
    let mut inputs: Vec<TransactionInput> = Vec::new();
    let mut input_sum: u64 = 0;
    let ghost mut taken: Seq<(PublicKey, TransactionOutput)> = Seq::empty();
    let mut i: usize = 0;
    proof {
        assert(utxos@.subrange(0, 0) =~= Seq::<(PublicKey, Vec<(bool, TransactionOutput)>)>::empty());
        assert(items.subrange(0, 0) =~= Seq::<(PublicKey, bool, TransactionOutput)>::empty());
    }
    while i < utxos.len() && input_sum < total
        invariant
            i <= utxos@.len(),
            total == amount + fees,
            items == wallet_items(utxos@),
            all == chosen(items, total as int),
            taken_sum(all) <= u64::MAX,
            taken == chosen(items.subrange(0, wallet_items(utxos@.subrange(0, i as int)).len() as int), total as int),
            input_sum == taken_sum(taken),
            inputs_for(keys@, taken, inputs@),
            signing_failure(keys@, taken) is None,
        decreases utxos@.len() - i,
    {
        let pk = utxos[i].0;
        let outs = &utxos[i].1;
        let ghost before = wallet_items(utxos@.subrange(0, i as int));
        let ghost here = tagged(pk, outs@);
        proof {
            lemma_items_step(utxos@, i as int);
            lemma_items_prefix(utxos@, i + 1);
            lemma_items_prefix(utxos@, i as int);
        }
        let mut j: usize = 0;
        while j < outs.len() && input_sum < total
            invariant
                i < utxos@.len(),
                total == amount + fees,
                items == wallet_items(utxos@),
                all == chosen(items, total as int),
                taken_sum(all) <= u64::MAX,
                before == wallet_items(utxos@.subrange(0, i as int)),
                items.subrange(0, (before.len() + here.len()) as int) == before + here,
                before.len() + here.len() <= items.len(),
                outs@ == utxos@[i as int].1@,
                here == tagged(pk, outs@),
                j <= outs@.len(),
                taken == chosen(items.subrange(0, (before.len() + j) as int), total as int),
                input_sum == taken_sum(taken),
                inputs_for(keys@, taken, inputs@),
                signing_failure(keys@, taken) is None,
            decreases outs@.len() - j,
        {
            let entry = outs[j];
            let ghost pos: int = (before.len() + j) as int;
            proof {
                assert(items[pos] == here[j as int]) by {
                    assert(items.subrange(0, (before.len() + here.len()) as int)[pos] == (before + here)[pos]);
                }
                assert(items.subrange(0, pos + 1).drop_last() =~= items.subrange(0, pos));
                assert(items.subrange(0, pos + 1).last() == items[pos]);
            }
            if !entry.0 {
                let ghost next = taken.push((pk, entry.1));
                assert(next == chosen(items.subrange(0, pos + 1), total as int));
                proof {
                    lemma_chosen_prefix(items, pos + 1, total as int);
                    lemma_taken_sum_prefix(next, all);
                    assert(next.drop_last() =~= taken);
                    assert(taken_sum(next) == taken_sum(taken) + entry.1.value);
                }
                let key = match find_private_key(keys, &pk) {
                    Ok(k) => k,
                    Err(e) => {
                        proof {
                            assert(signing_failure(keys@, next) == Some(WalletError::KeyNotFound));
                            lemma_failure_prefix(keys@, next, all);
                        }
                        return Err(e);
                    },
                };
                let h = entry.1.hash();
                let signature = match Signature::sign_output(&h.0, key) {
                    Some(sig) => sig,
                    None => {
                        proof {
                            assert(signing_failure(keys@, next) == Some(WalletError::SigningFailed));
                            lemma_failure_prefix(keys@, next, all);
                        }
                        return Err(WalletError::SigningFailed);
                    },
                };
                inputs.push(TransactionInput::new(h, signature));
                input_sum = input_sum + entry.1.value;
                proof {
                    assert(signing_failure(keys@, next) is None);
                    taken = next;
                }
            }
            j = j + 1;
        }
        proof {
            let end = (before.len() + here.len()) as int;
            if j < outs@.len() {
                assert(items.subrange(0, end).subrange(0, (before.len() + j) as int) =~= items.subrange(0, (before.len() + j) as int));
                lemma_chosen_saturated(items.subrange(0, end), (before.len() + j) as int, total as int);
            }
            lemma_items_step(utxos@, i as int);
        }
        i = i + 1;
    }
    proof {
        if i < utxos@.len() {
            lemma_items_prefix(utxos@, i as int);
            lemma_chosen_saturated(items, wallet_items(utxos@.subrange(0, i as int)).len() as int, total as int);
        } else {
            assert(utxos@.subrange(0, i as int) =~= utxos@);
            assert(items.subrange(0, items.len() as int) =~= items);
        }
        assert(taken == all);
    }
    if input_sum < total {
        return Err(WalletError::InsufficientFunds);
    }
    let mut outputs: Vec<TransactionOutput> = Vec::new();
    outputs.push(TransactionOutput::new(amount, recipient_id, *recipient));
    if input_sum > total {
        proof {
            if taken.len() == 0 {
                lemma_taken_sum_empty(taken);
            }
            lemma_first_claim_keyed(keys@, taken);
        }
        outputs.push(TransactionOutput::new(input_sum - total, change_id, keys[0].public));
    }
    let tx = Transaction::new(inputs, outputs);
    proof {
        assert(tx@.1 =~= payment_outputs(keys@, *recipient, amount, taken_sum(all), total as int, recipient_id, change_id));
    }
    Ok(tx)
}

/// Builds a payment of `amount` to `recipient` with fee `fees`, giving its outputs fresh
/// random identifiers; see `create_transaction_with`.
pub fn create_transaction(
    keys: &Vec<LoadedKey>,
    utxos: &Vec<(PublicKey, Vec<(bool, TransactionOutput)>)>,
    recipient: &PublicKey,
    amount: u64,
    fees: u64,
) -> (r: Result<Transaction, WalletError>)
    requires
        amount + fees <= u64::MAX,
        taken_sum(chosen(wallet_items(utxos@), amount + fees)) <= u64::MAX,
    ensures
        ({
            let total = amount + fees;
            let c = chosen(wallet_items(utxos@), total);
            &&& r is Ok <==> signing_failure(keys@, c) is None && taken_sum(c) >= total
            &&& r matches Err(e) ==> e == payment_error(keys@, c)
            &&& r matches Ok(tx) ==> inputs_for(keys@, c, tx@.0) && exists|recipient_id: u128, change_id: u128|
                tx@.1 == #[trigger] payment_outputs(
                    keys@,
                    *recipient,
                    amount,
                    taken_sum(c),
                    total,
                    recipient_id,
                    change_id,
                )
        }),
{
    let recipient_id = new_unique_id();
    let change_id = new_unique_id();
    create_transaction_with(keys, utxos, recipient, amount, fees, recipient_id, change_id)
}

/// The value of the outputs chosen to pay `total`, computed without overflow.
fn chosen_value(utxos: &Vec<(PublicKey, Vec<(bool, TransactionOutput)>)>, total: u64) -> (r: u128)
    ensures
        r == taken_sum(chosen(wallet_items(utxos@), total as int)),
{
    let ghost items = wallet_items(utxos@);
    let ghost all = chosen(items, total as int);
    let mut sum: u128 = 0;
    let ghost mut taken: Seq<(PublicKey, TransactionOutput)> = Seq::empty();
    let mut i: usize = 0;
    proof {
        assert(utxos@.subrange(0, 0) =~= Seq::<(PublicKey, Vec<(bool, TransactionOutput)>)>::empty());
        assert(items.subrange(0, 0) =~= Seq::<(PublicKey, bool, TransactionOutput)>::empty());
    }
    while i < utxos.len() && sum < total as u128
        invariant
            i <= utxos@.len(),
            items == wallet_items(utxos@),
            all == chosen(items, total as int),
            taken == chosen(items.subrange(0, wallet_items(utxos@.subrange(0, i as int)).len() as int), total as int),
            sum == taken_sum(taken),
            sum < total + 0x1_0000_0000_0000_0000,
        decreases utxos@.len() - i,
    {
        let pk = utxos[i].0;
        let outs = &utxos[i].1;
        let ghost before = wallet_items(utxos@.subrange(0, i as int));
        let ghost here = tagged(pk, outs@);
        proof {
            lemma_items_step(utxos@, i as int);
            lemma_items_prefix(utxos@, i + 1);
            lemma_items_prefix(utxos@, i as int);
        }
        let mut j: usize = 0;
        while j < outs.len() && sum < total as u128
            invariant
                i < utxos@.len(),
                items == wallet_items(utxos@),
                before == wallet_items(utxos@.subrange(0, i as int)),
                items.subrange(0, (before.len() + here.len()) as int) == before + here,
                before.len() + here.len() <= items.len(),
                outs@ == utxos@[i as int].1@,
                here == tagged(pk, outs@),
                j <= outs@.len(),
                taken == chosen(items.subrange(0, (before.len() + j) as int), total as int),
                sum == taken_sum(taken),
                sum < total + 0x1_0000_0000_0000_0000,
            decreases outs@.len() - j,
        {
            let entry = outs[j];
            let ghost pos: int = (before.len() + j) as int;
            proof {
                assert(items[pos] == here[j as int]) by {
                    assert(items.subrange(0, (before.len() + here.len()) as int)[pos] == (before + here)[pos]);
                }
                assert(items.subrange(0, pos + 1).drop_last() =~= items.subrange(0, pos));
                assert(items.subrange(0, pos + 1).last() == items[pos]);
            }
            if !entry.0 {
                proof {
                    let next = taken.push((pk, entry.1));
                    assert(next.drop_last() =~= taken);
                    taken = next;
                }
                sum = sum + entry.1.value as u128;
            }
            j = j + 1;
        }
        proof {
            let end = (before.len() + here.len()) as int;
            if j < outs@.len() {
                assert(items.subrange(0, end).subrange(0, (before.len() + j) as int) =~= items.subrange(
                    0,
                    (before.len() + j) as int,
                ));
                lemma_chosen_saturated(items.subrange(0, end), (before.len() + j) as int, total as int);
            }
        }
        i = i + 1;
    }
    proof {
        if i < utxos@.len() {
            lemma_items_prefix(utxos@, i as int);
            lemma_chosen_saturated(items, wallet_items(utxos@.subrange(0, i as int)).len() as int, total as int);
        } else {
            assert(utxos@.subrange(0, i as int) =~= utxos@);
            assert(items.subrange(0, items.len() as int) =~= items);
        }
    }
    sum
}

/// Whether building a payment of `amount` with fee `fees` adds up without overflow;
/// `create_transaction` may be called exactly when this holds.
pub fn payment_fits(utxos: &Vec<(PublicKey, Vec<(bool, TransactionOutput)>)>, amount: u64, fees: u64) -> (b: bool)
    ensures
        b == (amount + fees <= u64::MAX && taken_sum(chosen(wallet_items(utxos@), amount + fees)) <= u64::MAX),
{
    match amount.checked_add(fees) {
        Some(total) => chosen_value(utxos, total) <= 0xFFFF_FFFF_FFFF_FFFFu128,
        None => false,
    }
}

} // verus!
