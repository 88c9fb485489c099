//! What the node's HTTP endpoints decide: which submitted transactions enter the
//! mempool, and when a mining request is answered with a block.
use crate::blockchain::{
    now_millis, new_transaction_id, Block, Blockchain, BlockchainView, Transaction,
    TransactionView, mined_by,
};
use crate::wallet::{signature_valid, verify_signature};
use vstd::prelude::*;

verus! {

/// A request to mine the mempool, naming who gets the reward.
#[derive(Debug)]
pub struct MineRequest {
    pub miner_address: String,
}

/// A signed transfer submitted by a client.
#[derive(Debug)]
pub struct SendTxRequest {
    pub from: String,
    pub to: String,
    /// The amount, as the JSON text of the number.
    pub amount: String,
    /// The amount as the client wrote it into the message it signed (the number's
    /// plain decimal display, e.g. `5` for 5.0).
    pub amount_display: String,
    /// The sender's verifying key, hexadecimal.
    pub public_key: String,
    /// The signature of the message, hexadecimal.
    pub signature: String,
}

/// Why a request is refused.
#[derive(Debug, Clone, Copy, PartialEq, Eq, Structural)]
pub enum ApiError {
    /// The signature does not check against the message and key.
    InvalidSignature,
    /// The mining request names no miner.
    MinerAddressRequired,
    /// No nonce gives the block a hash that meets the difficulty.
    NoNonceFound,
}

/// The text of each refusal.
pub open spec fn api_error_message(e: ApiError) -> Seq<char> {
    match e {
        ApiError::InvalidSignature => "Invalid signature – transaction rejected"@,
        ApiError::MinerAddressRequired => "miner_address is required"@,
        ApiError::NoNonceFound => "no nonce meets the difficulty"@,
    }
}

impl ApiError {
    /// The text of the refusal.
    pub fn message(&self) -> (res: String)
        ensures
            res@ == api_error_message(*self),
    {
        match self {
            ApiError::InvalidSignature => String::from_str("Invalid signature – transaction rejected"),
            ApiError::MinerAddressRequired => String::from_str("miner_address is required"),
            ApiError::NoNonceFound => String::from_str("no nonce meets the difficulty"),
        }
    }
}

/// The message a client signs for a transfer: sender, receiver and amount run together.
pub open spec fn transfer_message(req: SendTxRequest) -> Seq<char> {
    req.from@ + req.to@ + req.amount_display@
}

/// The transaction that an accepted request becomes.
pub open spec fn accepted_transaction(req: SendTxRequest, id: Seq<char>, timestamp: i64) -> TransactionView {
    TransactionView {
        id,
        from: req.from@,
        to: req.to@,
        amount: req.amount@,
        timestamp,
        signature: req.signature@,
    }
}

/// What submitting a transfer does: with a valid signature the transaction enters
/// the mempool and is returned; otherwise the request is refused and nothing changes.
pub open spec fn submission_step(
    before: BlockchainView,
    after: BlockchainView,
    req: SendTxRequest,
    id: Seq<char>,
    timestamp: i64,
    res: Result<Transaction, ApiError>,
) -> bool {
    if signature_valid(req.public_key@, transfer_message(req), req.signature@) {
        &&& res matches Ok(tx) && tx@ == accepted_transaction(req, id, timestamp)
        &&& after == BlockchainView {
            pending_transactions: before.pending_transactions.push(
                accepted_transaction(req, id, timestamp),
            ),
            ..before
        }
    } else {
        &&& res == Err::<Transaction, ApiError>(ApiError::InvalidSignature)
        &&& after == before
    }
}

/// The message a client signs for a transfer.
pub fn transfer_message_of(req: &SendTxRequest) -> (res: String)
    ensures
        res@ == transfer_message(*req),
{
    let mut msg = req.from.clone();
    msg.append(req.to.as_str());
    msg.append(req.amount_display.as_str());
    msg
}

/// Checks the signature of a submitted transfer and, when it holds, adds the
/// transaction to the mempool with the given identifier and timestamp.
pub fn accept_transaction_at(
    bc: &mut Blockchain,
    req: &SendTxRequest,
    id: String,
    timestamp: i64,
) -> (res: Result<Transaction, ApiError>)
    ensures
        submission_step(old(bc)@, final(bc)@, *req, id@, timestamp, res),
        res is Ok <==> signature_valid(
            req.public_key@,
            req.from@ + req.to@ + req.amount_display@,
            req.signature@,
        ),
        res matches Ok(tx) ==> {
            &&& tx@.id == id@
            &&& tx@.from == req.from@
            &&& tx@.to == req.to@
            &&& tx@.amount == req.amount@
            &&& tx@.timestamp == timestamp
            &&& tx@.signature == req.signature@
            &&& final(bc)@.pending_transactions == old(bc)@.pending_transactions.push(tx@)
            &&& final(bc)@.chain == old(bc)@.chain
        },
        res matches Err(e) ==> e == ApiError::InvalidSignature && final(bc)@ == old(bc)@,
{
    let msg = transfer_message_of(req);
    if !verify_signature(req.public_key.as_str(), msg.as_str(), req.signature.as_str()) {
        return Err(ApiError::InvalidSignature);
    }
    let tx = Transaction {
        id,
        from: req.from.clone(),
        to: req.to.clone(),
        amount: req.amount.clone(),
        timestamp,
        signature: req.signature.clone(),
    };
    let copy = tx.clone();
    bc.add_transaction(tx);
    Ok(copy)
}

/// Checks the signature of a submitted transfer and, when it holds, adds it to the
/// mempool under a fresh identifier, stamped with the current time.
pub fn accept_transaction(bc: &mut Blockchain, req: &SendTxRequest) -> (res: Result<
    Transaction,
    ApiError,
>)
    ensures
        exists|id: Seq<char>, timestamp: i64|
            #[trigger] submission_step(old(bc)@, final(bc)@, *req, id, timestamp, res),
        res is Ok <==> signature_valid(
            req.public_key@,
            req.from@ + req.to@ + req.amount_display@,
            req.signature@,
        ),
        res matches Ok(tx) ==> {
            &&& tx@.from == req.from@
            &&& tx@.to == req.to@
            &&& tx@.amount == req.amount@
            &&& tx@.signature == req.signature@
            &&& final(bc)@.pending_transactions == old(bc)@.pending_transactions.push(tx@)
            &&& final(bc)@.chain == old(bc)@.chain
        },
        res matches Err(e) ==> e == ApiError::InvalidSignature && final(bc)@ == old(bc)@,
{
    let id = new_transaction_id();
    let timestamp = now_millis();
    let ghost id_view = id@;
    let res = accept_transaction_at(bc, req, id, timestamp);
    assert(submission_step(old(bc)@, bc@, *req, id_view, timestamp, res));
    res
}

/// Answers a mining request: refused without a miner address, otherwise the
/// mempool is mined with the reward to that address.
pub fn mine_block_for(bc: &mut Blockchain, req: &MineRequest) -> (res: Result<Block, ApiError>)
    requires
        req.miner_address@.len() != 0 ==> old(bc)@.chain.len() > 0 && old(bc)@.difficulty <= 64,
    ensures
        req.miner_address@.len() == 0 ==> res == Err::<Block, ApiError>(ApiError::MinerAddressRequired)
            && final(bc)@ == old(bc)@,
        req.miner_address@.len() != 0 ==> match res {
            Ok(b) => mined_by(old(bc)@, final(bc)@, req.miner_address@, Some(b)),
            Err(e) => e == ApiError::NoNonceFound && mined_by(
                old(bc)@,
                final(bc)@,
                req.miner_address@,
                None::<Block>,
            ),
        },
{
    if req.miner_address.as_str().is_empty() {
        return Err(ApiError::MinerAddressRequired);
    }
    let mined = bc.mine_pending_transactions(req.miner_address.as_str());
    match mined {
        Some(b) => Ok(b),
        None => Err(ApiError::NoNonceFound),
    }
}

/// Submitting a transfer stores what it returns: when the signature of the sender,
/// receiver and amount holds, the transaction returned is the request's sender,
/// receiver, amount and signature under the given identifier and time, and it is
/// the one appended to the mempool, the chain and settings untouched; otherwise the
/// request is refused as badly signed and nothing changes.
pub proof fn lemma_submission_stores_returned_transaction(
    before: BlockchainView,
    after: BlockchainView,
    req: SendTxRequest,
    id: Seq<char>,
    timestamp: i64,
    res: Result<Transaction, ApiError>,
)
    requires
        submission_step(before, after, req, id, timestamp, res),
    ensures
        res is Ok <==> signature_valid(
            req.public_key@,
            req.from@ + req.to@ + req.amount_display@,
            req.signature@,
        ),
        res matches Ok(tx) ==> {
            &&& tx@ == (TransactionView {
                id,
                from: req.from@,
                to: req.to@,
                amount: req.amount@,
                timestamp,
                signature: req.signature@,
            })
            &&& after.pending_transactions == before.pending_transactions.push(tx@)
            &&& after.pending_transactions.last() == tx@
            &&& after.chain == before.chain
            &&& after.difficulty == before.difficulty
            &&& after.mining_reward == before.mining_reward
        },
        res matches Err(e) ==> e == ApiError::InvalidSignature && after == before,
{
}

} // verus!
