use vstd::prelude::*;
use crate::error::BtcError;
use crate::network::Message;
use crate::time::Timestamp;
use crate::types::blockchain::{
    add_block_safe, block_added, template_built, transaction_added, utxo_listing,
};
use crate::types::block::block_hash_of;
use crate::types::mempool::{by_fee, mempool_safe};
use crate::types::{Block, Blockchain};

verus! {

/// Of the chain heights peers reported, in the order they answered, the first of the
/// greatest, with the peer that reported it; none when no peer answered.
pub fn pick_longest(replies: &Vec<(String, u64)>) -> (r: Option<(String, u64)>)
    ensures
        replies@.len() == 0 <==> r is None,
        r matches Some(best) ==> exists|i: int|
            0 <= i < replies@.len() && best.0@ == (#[trigger] replies@[i]).0@ && best.1 == replies@[i].1
                && (forall|j: int| 0 <= j < replies@.len() ==> replies@[j].1 <= best.1)
                && (forall|j: int| 0 <= j < i ==> replies@[j].1 < best.1),
{
    if replies.len() == 0 {
        return None;
    }
    let mut best: usize = 0;
    let mut k: usize = 1;
    while k < replies.len()
        invariant
            1 <= k <= replies@.len(),
            best < k,
            forall|j: int| 0 <= j < k ==> replies@[j].1 <= replies@[best as int].1,
            forall|j: int| 0 <= j < best ==> replies@[j].1 < replies@[best as int].1,
        decreases replies@.len() - k,
    {
        if replies[k].1 > replies[best].1 {
            best = k;
        }
        k = k + 1;
    }
    let name = replies[best].0.clone();
    let height = replies[best].1;
    let r = Some((name, height));
    assert(replies@[best as int].0@ == name@);
    r
}

/// Whether a node, walking a list of peer addresses, tries to connect to the next one:
/// fewer than `MAX_PEERS_TO_CONNECT` addresses of the list were tried before it, and it
/// is not among the peers the node knows.
pub fn should_connect(known: &Vec<String>, addr: &String, tried: usize) -> (b: bool)
    ensures
        b == (tried < crate::MAX_PEERS_TO_CONNECT && !exists|i: int|
            0 <= i < known@.len() && (#[trigger] known@[i])@ == addr@),
{
    if tried >= crate::MAX_PEERS_TO_CONNECT {
        return false;
    }
    let mut i: usize = 0;
    while i < known.len()
        invariant
            i <= known@.len(),
            forall|j: int| 0 <= j < i ==> (#[trigger] known@[j])@ != addr@,
        decreases known@.len() - i,
    {
        if known[i] == *addr {
            return false;
        }
        i = i + 1;
    }
    true
}

/// What a node does in answer to a message.
pub enum Reaction {
    /// Send this message back to the peer.
    Reply(Message),
    /// Send this message to every known peer.
    Broadcast(Message),
    /// The block or transaction was taken in; nothing to send.
    Accepted,
    /// The block or transaction was refused, for this reason; nothing to send.
    Rejected(BtcError),
}

/// Handling the message reaches no computation that would panic.
pub open spec fn message_safe(chain: Blockchain, message: Message) -> bool {
    match message {
        Message::NewBlock(b) => add_block_safe(chain.chain(), chain.utxo_map(), chain.current_target(), b@),
        Message::SubmitTemplate(b) => add_block_safe(chain.chain(), chain.utxo_map(), chain.current_target(), b@),
        Message::NewTransaction(t) => mempool_safe(t@, chain.utxo_map(), chain.mempool_map(), chain.pending_map()),
        Message::SubmitTransaction(t) => mempool_safe(
            t@,
            chain.utxo_map(),
            chain.mempool_map(),
            chain.pending_map(),
        ),
        _ => true,
    }
}

/// How the outcome of taking in a block or transaction is reported: accepted or refused
/// with its error.
pub open spec fn outcome_reported(res: Result<(), BtcError>, r: Reaction) -> bool {
    match res {
        Ok(()) => r is Accepted,
        Err(e) => r == Reaction::Rejected(e),
    }
}

/// How a template request is answered: the template, or that none is available.
pub open spec fn template_answer(res: Result<Block, BtcError>, r: Reaction) -> bool {
    match res {
        Ok(b) => r matches Reaction::Reply(Message::Template(t)) && t@ == b@,
        Err(_) => r matches Reaction::Reply(Message::TemplateNotAvailable),
    }
}

/// The reaction `r` and the new state of the chain answer `message` as a node does:
/// requests for blocks, heights, peers, unspent outputs, templates and template validity
/// are answered from the chain; new blocks and transactions are taken in; submitted ones
/// are taken in and, when accepted, relayed to every peer; answers, which a node does
/// not expect, are met with `Unsupported`.
pub open spec fn handled(
    old: Blockchain,
    new: Blockchain,
    message: Message,
    peers: Seq<String>,
    now: Timestamp,
    unique_id: u128,
    r: Reaction,
) -> bool {
    match message {
        Message::FetchBlock(h) => {
            &&& new == old
            &&& h < old.chain().len() ==> (r matches Reaction::Reply(Message::NewBlock(b)) && b@ == old.chain()[h as int])
            &&& h >= old.chain().len() ==> r matches Reaction::Reply(Message::BlockNotFound)
        },
        Message::DiscoverNodes => new == old && (r matches Reaction::Reply(Message::NodeList(ns)) && ns@ == peers),
        Message::AskBlockCount => new == old && (r matches Reaction::Reply(Message::BlockCount(n)) && n == old.chain().len()),
        Message::FetchUTXOs(key) => {
            &&& new == old
            &&& r matches Reaction::Reply(Message::UTXOs(found)) && exists|ks: Seq<crate::sha256::Hash>|
                #[trigger] utxo_listing(old.utxo_map(), old.pending_map(), key, ks, found@)
        },
        Message::NewBlock(b) => exists|res: Result<(), BtcError>|
            #[trigger] block_added(old, new, b@, res) && outcome_reported(res, r),
        Message::NewTransaction(t) => exists|res: Result<(), BtcError>|
            #[trigger] transaction_added(old, new, t@, now, res) && outcome_reported(res, r),
        Message::ValidateTemplate(b) => {
            &&& new == old
            &&& r matches Reaction::Reply(Message::TemplateValidity(v)) && (if old.chain().len() == 0 {
                v == (b@.0.prev_block_hash.0.0.value() == 0)
            } else {
                v == (b@.0.prev_block_hash == block_hash_of(old.chain().last()))
            })
        },
        Message::SubmitTemplate(b) => exists|res: Result<(), BtcError>|
            #[trigger] block_added(old, new, b@, res) && match res {
                Ok(()) => r matches Reaction::Broadcast(Message::NewBlock(c)) && c@ == b@,
                Err(e) => r == Reaction::Rejected(e),
            },
        Message::SubmitTransaction(t) => exists|res: Result<(), BtcError>|
            #[trigger] transaction_added(old, new, t@, now, res) && match res {
                Ok(()) => r matches Reaction::Broadcast(Message::NewTransaction(c)) && c@ == t@,
                Err(e) => r == Reaction::Rejected(e),
            },
        Message::FetchTemplate(pk) => {
            &&& new == old
            &&& exists|ks: Seq<crate::sha256::Hash>, res: Result<Block, BtcError>|
                by_fee(old.mempool_map(), ks) && #[trigger] template_built(
                    old.chain(),
                    old.current_target(),
                    old.mempool_map(),
                    ks,
                    pk,
                    now,
                    unique_id,
                    res,
                ) && template_answer(res, r)
        },
        _ => new == old && r matches Reaction::Reply(Message::Unsupported),
    }
}

/// Answers one message from a peer at time `now`, with `peers` the nodes this node knows
/// and `unique_id` the identifier for the coinbase output of a template it builds.
pub fn handle_message(
    chain: &mut Blockchain,
    message: Message,
    peers: Vec<String>,
    now: Timestamp,
    unique_id: u128,
) -> (r: Reaction)
    requires
        old(chain).wf(),
        message_safe(*old(chain), message),
    ensures
        handled(*old(chain), *final(chain), message, peers@, now, unique_id, r),
{
    let ghost before = *chain;
    let ghost m = message;
    let ghost pv = peers@;
    match message {
        Message::FetchBlock(h) => {
            let r = match chain.block_at(h) {
                Some(b) => Reaction::Reply(Message::NewBlock(b)),
                None => Reaction::Reply(Message::BlockNotFound),
            };
            assert(handled(before, *chain, m, pv, now, unique_id, r));
            r
        },
        Message::DiscoverNodes => {
            let r = Reaction::Reply(Message::NodeList(peers));
            assert(handled(before, *chain, m, pv, now, unique_id, r));
            r
        },
        Message::AskBlockCount => {
            let r = Reaction::Reply(Message::BlockCount(chain.block_height()));
            assert(handled(before, *chain, m, pv, now, unique_id, r));
            r
        },
        Message::FetchUTXOs(key) => {
            let found = chain.scan_utxos(key);
            let ghost fv = found@;
            let r = Reaction::Reply(Message::UTXOs(found));
            proof {
                let ks = choose|ks: Seq<crate::sha256::Hash>|
                    utxo_listing(chain.utxo_map(), chain.pending_map(), key, ks, fv);
                assert(utxo_listing(before.utxo_map(), before.pending_map(), key, ks, fv));
                match r {
                    Reaction::Reply(Message::UTXOs(ref f)) => {
                        assert(f@ == fv);
                        assert(utxo_listing(before.utxo_map(), before.pending_map(), key, ks, f@));
                    },
                    _ => {},
                }
            }
            assert(handled(before, *chain, m, pv, now, unique_id, r));
            r
        },
        Message::NewBlock(b) => {
            let ghost bv = b@;
            let res = chain.add_block(b);
            assert(block_added(before, *chain, bv, res));
            let r = match res {
                Ok(()) => Reaction::Accepted,
                Err(e) => Reaction::Rejected(e),
            };
            assert(outcome_reported(res, r));
            assert(handled(before, *chain, m, pv, now, unique_id, r));
            r
        },
        Message::NewTransaction(t) => {
            let ghost tv = t@;
            let res = chain.add_to_mempool_at(t, now);
            assert(transaction_added(before, *chain, tv, now, res));
            let r = match res {
                Ok(()) => Reaction::Accepted,
                Err(e) => Reaction::Rejected(e),
            };
            assert(outcome_reported(res, r));
            assert(handled(before, *chain, m, pv, now, unique_id, r));
            r
        },
        Message::ValidateTemplate(b) => {
            let r = Reaction::Reply(Message::TemplateValidity(chain.template_is_current(&b)));
            assert(handled(before, *chain, m, pv, now, unique_id, r));
            r
        },
        Message::SubmitTemplate(b) => {
            let copy = b.clone();
            let ghost bv = b@;
            let res = chain.add_block(b);
            assert(block_added(before, *chain, bv, res));
            let r = match res {
                Ok(()) => Reaction::Broadcast(Message::NewBlock(copy)),
                Err(e) => Reaction::Rejected(e),
            };
            assert(handled(before, *chain, m, pv, now, unique_id, r));
            r
        },
        Message::SubmitTransaction(t) => {
            let copy = t.clone();
            let ghost tv = t@;
            let res = chain.add_to_mempool_at(t, now);
            assert(transaction_added(before, *chain, tv, now, res));
            let r = match res {
                Ok(()) => Reaction::Broadcast(Message::NewTransaction(copy)),
                Err(e) => Reaction::Rejected(e),
            };
            assert(handled(before, *chain, m, pv, now, unique_id, r));
            r
        },
        Message::FetchTemplate(pk) => {
            let res = chain.block_template_at(pk, now, unique_id);
            let r = match res {
                Ok(b) => Reaction::Reply(Message::Template(b)),
                Err(_) => Reaction::Reply(Message::TemplateNotAvailable),
            };
            assert(template_answer(res, r));
            assert(handled(before, *chain, m, pv, now, unique_id, r));
            r
        },
        _ => {
            let r = Reaction::Reply(Message::Unsupported);
            assert(handled(before, *chain, m, pv, now, unique_id, r));
            r
        },
    }
}

/// Whether handling the message reaches no computation that would panic;
/// `handle_message` may be called exactly when this holds.
pub fn message_checkable(chain: &Blockchain, message: &Message) -> (b: bool)
    requires
        chain.wf(),
    ensures
        b == message_safe(*chain, *message),
{
    match message {
        Message::NewBlock(b) => chain.add_block_checkable(b),
        Message::SubmitTemplate(b) => chain.add_block_checkable(b),
        Message::NewTransaction(t) => chain.mempool_checkable(t),
        Message::SubmitTransaction(t) => chain.mempool_checkable(t),
        _ => true,
    }
}

/// Answers one message as `handle_message` does, where handling it reaches no
/// computation that would panic; `None`, with the chain unchanged, where it would.
pub fn handle_message_checked(
    chain: &mut Blockchain,
    message: Message,
    peers: Vec<String>,
    now: Timestamp,
    unique_id: u128,
) -> (r: Option<Reaction>)
    requires
        old(chain).wf(),
    ensures
        r is None <==> !message_safe(*old(chain), message),
        r is None ==> *final(chain) == *old(chain),
        r matches Some(x) ==> handled(*old(chain), *final(chain), message, peers@, now, unique_id, x),
{
    if !message_checkable(chain, &message) {
        return None;
    }
    Some(handle_message(chain, message, peers, now, unique_id))
}

} // verus!
