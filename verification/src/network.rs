use vstd::prelude::*;
use crate::codec::{put_bytes, put_u64};
use crate::crypto::PublicKey;
use crate::types::{Block, Transaction, TransactionOutput};
use crate::u256::u64_be_bytes;

verus! {

/// The largest payload a frame may announce: 32 MiB.
pub const MAX_MESSAGE_SIZE: usize = 32 * 1024 * 1024;

/// Why a frame header is refused.
#[derive(Clone, Copy, Debug, PartialEq, Eq, Structural)]
pub enum FrameError {
    /// The announced payload length exceeds `MAX_MESSAGE_SIZE`.
    MessageTooLarge(u64),
}

/// The messages nodes, miners and wallets exchange.
pub enum Message {
    /// Fetch all unspent outputs belonging to a public key.
    FetchUTXOs(PublicKey),
    /// Unspent outputs belonging to a public key, each with whether a pending transaction
    /// already spends it.
    UTXOs(Vec<(TransactionOutput, bool)>),
    /// Submit a transaction to the network; no answer is expected.
    SubmitTransaction(Transaction),
    /// Relay a new transaction to other nodes.
    NewTransaction(Transaction),
    /// Ask the node for a block template whose coinbase pays the public key.
    FetchTemplate(PublicKey),
    /// The template.
    Template(Block),
    /// The node cannot build a template.
    TemplateNotAvailable,
    /// Ask the node whether a template still extends its chain.
    ValidateTemplate(Block),
    /// Whether the template is still valid.
    TemplateValidity(bool),
    /// Submit a mined block; no answer is expected.
    SubmitTemplate(Block),
    /// Ask a node for the nodes it knows.
    DiscoverNodes,
    /// The answer to `DiscoverNodes`.
    NodeList(Vec<String>),
    /// Ask a node for the height of its chain.
    AskBlockCount,
    /// The answer to `AskBlockCount`.
    BlockCount(u64),
    /// Ask a node for the block at a height.
    FetchBlock(u64),
    /// The node has no block at that height.
    BlockNotFound,
    /// Relay a new block to other nodes.
    NewBlock(Block),
    /// The node received a message it does not handle.
    Unsupported,
}

/// The word that eight big-endian bytes stand for.
pub open spec fn u64_from_be_bytes(b: Seq<u8>) -> u64 {
    ((b[0] as u64) << 56u64) | ((b[1] as u64) << 48u64) | ((b[2] as u64) << 40u64) | ((b[3] as u64)
        << 32u64) | ((b[4] as u64) << 24u64) | ((b[5] as u64) << 16u64) | ((b[6] as u64) << 8u64) | (b[7] as u64)
}

/// A frame on the wire: the payload's length as eight big-endian bytes, then the payload.
pub open spec fn frame_of(payload: Seq<u8>) -> Seq<u8> {
    u64_be_bytes(payload.len() as u64) + payload
}

/// Reading back the eight big-endian bytes of a word gives the word.
pub proof fn lemma_u64_be_roundtrip(x: u64)
    ensures
        u64_from_be_bytes(u64_be_bytes(x)) == x,
{
    let b = u64_be_bytes(x);
    assert(b[0] == (x >> 56u64) as u8 && b[1] == (x >> 48u64) as u8 && b[2] == (x >> 40u64) as u8 && b[3]
        == (x >> 32u64) as u8);
    assert(b[4] == (x >> 24u64) as u8 && b[5] == (x >> 16u64) as u8 && b[6] == (x >> 8u64) as u8 && b[7]
        == x as u8);
    assert(((((x >> 56u64) as u8) as u64) << 56u64) | ((((x >> 48u64) as u8) as u64) << 48u64) | ((((x
        >> 40u64) as u8) as u64) << 40u64) | ((((x >> 32u64) as u8) as u64) << 32u64) | ((((x >> 24u64) as u8)
        as u64) << 24u64) | ((((x >> 16u64) as u8) as u64) << 16u64) | ((((x >> 8u64) as u8) as u64) << 8u64)
        | ((x as u8) as u64) == x) by (bit_vector);
}

/// A frame read back: its first eight bytes announce the payload's length and the rest
/// is the payload.
pub proof fn lemma_frame_roundtrip(payload: Seq<u8>)
    requires
        payload.len() <= u64::MAX,
    ensures
        frame_of(payload).len() == 8 + payload.len(),
        u64_from_be_bytes(frame_of(payload).subrange(0, 8)) == payload.len(),
        frame_of(payload).subrange(8, frame_of(payload).len() as int) == payload,
{
    let f = frame_of(payload);
    lemma_u64_be_roundtrip(payload.len() as u64);
    assert(f.subrange(0, 8) =~= u64_be_bytes(payload.len() as u64));
    assert(f.subrange(8, f.len() as int) =~= payload);
}

/// Frames a payload for the wire.
pub fn frame(payload: &[u8]) -> (r: Vec<u8>)
    ensures
        r@ == frame_of(payload@),
{
    let mut out: Vec<u8> = Vec::new();
    put_u64(&mut out, payload.len() as u64);
    put_bytes(&mut out, payload);
    out
}

/// The payload length a frame header announces.
pub fn announced_length(header: &[u8; 8]) -> (r: u64)
    ensures
        r == u64_from_be_bytes(header@),
{
    ((header[0] as u64) << 56u64) | ((header[1] as u64) << 48u64) | ((header[2] as u64) << 40u64) | ((
    header[3] as u64) << 32u64) | ((header[4] as u64) << 24u64) | ((header[5] as u64) << 16u64) | ((
    header[6] as u64) << 8u64) | (header[7] as u64)
}

/// The payload length a frame header announces, refused above `MAX_MESSAGE_SIZE`.
pub fn payload_length(header: &[u8; 8]) -> (r: Result<usize, FrameError>)
    ensures
        r is Ok <==> u64_from_be_bytes(header@) <= MAX_MESSAGE_SIZE,
        r matches Ok(n) ==> n == u64_from_be_bytes(header@),
        r matches Err(e) ==> e == FrameError::MessageTooLarge(u64_from_be_bytes(header@)),
{
    let len = announced_length(header);
    if len > MAX_MESSAGE_SIZE as u64 {
        return Err(FrameError::MessageTooLarge(len));
    }
    Ok(len as usize)
}

} // verus!
