//! Transactions, blocks mined by proof of work, and the blockchain with its mempool.
//!
//! An amount of coins is kept as the decimal text that JSON gives the number
//! (`"50.0"`, `"10.5"`): that text is what the block hash covers, and it reads
//! back as the same number.
use crate::crypto::{sha256, sha256_digest};
use crate::encoding::{
    append_bytes, append_decimal, append_json_string, append_signed_decimal, decimal, hex_encode,
    hex_encoding, is_lower_hex, json_string, lemma_hex_encoding_injective,
    lemma_hex_encoding_shape, same_text, signed_decimal,
};
use vstd::prelude::*;
use vstd::utf8::encode_utf8;
use vstd::utf8::encode_scalar;

verus! {

broadcast use vstd::seq::group_seq_axioms;

// ---------------------------------------------------------------------------
// Transactions
// ---------------------------------------------------------------------------

/// A transfer of coins from one address to another, signed by the sender.
#[derive(Debug)]
pub struct Transaction {
    pub id: String,
    /// The sender's address, or `COINBASE` for a mining reward.
    pub from: String,
    pub to: String,
    /// The amount, as the JSON text of the number.
    pub amount: String,
    /// Milliseconds since the Unix epoch.
    pub timestamp: i64,
    /// The sender's hexadecimal signature, or `COINBASE` for a mining reward.
    pub signature: String,
}

/// The contents of a transaction.
pub struct TransactionView {
    pub id: Seq<char>,
    pub from: Seq<char>,
    pub to: Seq<char>,
    pub amount: Seq<char>,
    pub timestamp: i64,
    pub signature: Seq<char>,
}

impl View for Transaction {
    type V = TransactionView;

    open spec fn view(&self) -> TransactionView {
        TransactionView {
            id: self.id@,
            from: self.from@,
            to: self.to@,
            amount: self.amount@,
            timestamp: self.timestamp,
            signature: self.signature@,
        }
    }
}

impl Clone for Transaction {
    fn clone(&self) -> (res: Self)
        ensures
            res@ == self@,
    {
        Transaction {
            id: self.id.clone(),
            from: self.from.clone(),
            to: self.to.clone(),
            amount: self.amount.clone(),
            timestamp: self.timestamp,
            signature: self.signature.clone(),
        }
    }
}

/// The contents of a list of transactions.
pub open spec fn transactions_view(v: Seq<Transaction>) -> Seq<TransactionView> {
    v.map_values(|t: Transaction| t@)
}

/// A copy of a list of transactions.
pub fn copy_transactions(v: &Vec<Transaction>) -> (res: Vec<Transaction>)
    ensures
        transactions_view(res@) == transactions_view(v@),
{
    let mut res: Vec<Transaction> = Vec::new();
    let mut i: usize = 0;
    while i < v.len()
        invariant
            i <= v@.len(),
            res@.len() == i,
            forall|j: int| 0 <= j < i ==> #[trigger] res@[j]@ == v@[j]@,
        decreases v@.len() - i,
    {
        let t = v[i].clone();
        res.push(t);
        i += 1;
    }
    assert(transactions_view(res@) =~= transactions_view(v@));
    res
}

/// A transaction as JSON, fields in declaration order, compact.
#[verifier::opaque]
pub open spec fn transaction_json(t: TransactionView) -> Seq<u8> {
    encode_utf8("{\"id\":"@) + json_string(t.id) + encode_utf8(",\"from\":"@) + json_string(t.from)
        + encode_utf8(",\"to\":"@) + json_string(t.to) + encode_utf8(",\"amount\":"@) + encode_utf8(
        t.amount,
    ) + encode_utf8(",\"timestamp\":"@) + signed_decimal(t.timestamp as int) + encode_utf8(
        ",\"signature\":"@,
    ) + json_string(t.signature) + encode_utf8("}"@)
}

/// The JSON of each transaction, separated by commas.
pub open spec fn transaction_items_json(ts: Seq<TransactionView>) -> Seq<u8>
    decreases ts.len(),
{
    if ts.len() == 0 {
        Seq::empty()
    } else if ts.len() == 1 {
        transaction_json(ts[0])
    } else {
        transaction_items_json(ts.drop_last()) + seq![44u8] + transaction_json(ts.last())
    }
}

/// A list of transactions as a JSON array.
pub open spec fn transactions_json(ts: Seq<TransactionView>) -> Seq<u8> {
    seq![91u8] + transaction_items_json(ts) + seq![93u8]
}

fn append_transaction_json(out: &mut Vec<u8>, t: &Transaction)
    ensures
        final(out)@ == old(out)@ + transaction_json(t@),
{
    let ghost start = out@;
    proof {
        reveal(transaction_json);
    }
    append_bytes(out, "{\"id\":".as_bytes());
    append_json_string(out, t.id.as_str());
    append_bytes(out, ",\"from\":".as_bytes());
    append_json_string(out, t.from.as_str());
    append_bytes(out, ",\"to\":".as_bytes());
    append_json_string(out, t.to.as_str());
    append_bytes(out, ",\"amount\":".as_bytes());
    append_bytes(out, t.amount.as_str().as_bytes());
    append_bytes(out, ",\"timestamp\":".as_bytes());
    append_signed_decimal(out, t.timestamp);
    append_bytes(out, ",\"signature\":".as_bytes());
    append_json_string(out, t.signature.as_str());
    append_bytes(out, "}".as_bytes());
    assert(out@ =~= start + transaction_json(t@));
}

fn append_transactions_json(out: &mut Vec<u8>, txs: &Vec<Transaction>)
    ensures
        final(out)@ == old(out)@ + transactions_json(transactions_view(txs@)),
{
    let ghost start = out@;
    let ghost all = transactions_view(txs@);
    out.push(91u8);
    let mut i: usize = 0;
    while i < txs.len()
        invariant
            i <= txs@.len(),
            all == transactions_view(txs@),
            out@ == start + seq![91u8] + transaction_items_json(all.take(i as int)),
        decreases txs@.len() - i,
    {
        let ghost before = out@;
        if i > 0 {
            out.push(44u8);
        }
        append_transaction_json(out, &txs[i]);
        i += 1;
        assert(all.take(i as int).drop_last() =~= all.take(i - 1));
        assert(all.take(i as int).last() == txs@[i - 1]@);
        if i == 1 {
            assert(all.take(1) =~= seq![txs@[0]@]);
            assert(out@ =~= start + seq![91u8] + transaction_items_json(all.take(i as int)));
        } else {
            assert(out@ =~= start + seq![91u8] + transaction_items_json(all.take(i as int)));
        }
    }
    assert(all.take(i as int) =~= all);
    out.push(93u8);
    assert(out@ =~= start + transactions_json(all));
}

// ---------------------------------------------------------------------------
// Blocks
// ---------------------------------------------------------------------------

/// A block of the chain.
#[derive(Debug)]
pub struct Block {
    pub index: u64,
    /// Milliseconds since the Unix epoch.
    pub timestamp: i64,
    pub transactions: Vec<Transaction>,
    pub previous_hash: String,
    pub hash: String,
    pub nonce: u64,
    pub miner: String,
}

/// The contents of a block.
pub struct BlockView {
    pub index: u64,
    pub timestamp: i64,
    pub transactions: Seq<TransactionView>,
    pub previous_hash: Seq<char>,
    pub hash: Seq<char>,
    pub nonce: u64,
    pub miner: Seq<char>,
}

impl View for Block {
    type V = BlockView;

    open spec fn view(&self) -> BlockView {
        BlockView {
            index: self.index,
            timestamp: self.timestamp,
            transactions: transactions_view(self.transactions@),
            previous_hash: self.previous_hash@,
            hash: self.hash@,
            nonce: self.nonce,
            miner: self.miner@,
        }
    }
}

impl Clone for Block {
    fn clone(&self) -> (res: Self)
        ensures
            res@ == self@,
    {
        Block {
            index: self.index,
            timestamp: self.timestamp,
            transactions: copy_transactions(&self.transactions),
            previous_hash: self.previous_hash.clone(),
            hash: self.hash.clone(),
            nonce: self.nonce,
            miner: self.miner.clone(),
        }
    }
}

/// The contents of a list of blocks.
pub open spec fn blocks_view(v: Seq<Block>) -> Seq<BlockView> {
    v.map_values(|b: Block| b@)
}

/// What the block hash covers before the nonce: index, timestamp, the transactions
/// as JSON and the previous hash, the numbers in decimal, all run together.
pub open spec fn hash_input_prefix(b: BlockView) -> Seq<u8> {
    decimal(b.index as nat) + signed_decimal(b.timestamp as int) + transactions_json(b.transactions)
        + encode_utf8(b.previous_hash)
}

/// What the block hash covers: the prefix followed by the nonce in decimal.
pub open spec fn hash_input(b: BlockView) -> Seq<u8> {
    hash_input_prefix(b) + decimal(b.nonce as nat)
}

/// The hash of a block: its SHA-256 digest, in lower-case hexadecimal.
pub open spec fn block_hash(b: BlockView) -> Seq<char> {
    hex_encoding(sha256_digest(hash_input(b)))
}

/// Whether a hash starts with `difficulty` zero digits.
pub open spec fn meets_difficulty(hash: Seq<char>, difficulty: nat) -> bool {
    let bytes = encode_utf8(hash);
    &&& difficulty <= bytes.len()
    &&& forall|i: int| 0 <= i < difficulty ==> bytes[i] == 48u8
}

/// A block with another nonce.
pub open spec fn with_nonce(b: BlockView, nonce: u64) -> BlockView {
    BlockView { nonce, ..b }
}

/// Whether the block hash with this nonce meets the difficulty.
pub open spec fn nonce_solves(b: BlockView, nonce: u64, difficulty: nat) -> bool {
    meets_difficulty(block_hash(with_nonce(b, nonce)), difficulty)
}

/// The least nonce, from `start` on, whose block hash meets the difficulty.
pub open spec fn first_solution_from(b: BlockView, start: u64, difficulty: nat, nonce: u64) -> bool {
    &&& start <= nonce
    &&& nonce_solves(b, nonce, difficulty)
    &&& forall|m: u64| start <= m < nonce ==> !#[trigger] nonce_solves(b, m, difficulty)
}

/// A block with a nonce and the hash that goes with it.
pub open spec fn mined_block(b: BlockView, nonce: u64) -> BlockView {
    BlockView { nonce, hash: block_hash(with_nonce(b, nonce)), ..b }
}

/// A block not mined yet: no hash, nonce zero.
pub open spec fn block_template(
    index: u64,
    timestamp: i64,
    transactions: Seq<TransactionView>,
    previous_hash: Seq<char>,
    miner: Seq<char>,
) -> BlockView {
    BlockView {
        index,
        timestamp,
        transactions,
        previous_hash,
        hash: Seq::empty(),
        nonce: 0,
        miner,
    }
}

/// Whether a text starts with `count` zero digits, decided on its UTF-8 bytes.
fn starts_with_zeros(text: &str, count: usize) -> (res: bool)
    ensures
        res == meets_difficulty(text@, count as nat),
{
    let bytes = text.as_bytes();
    if bytes.len() < count {
        return false;
    }
    let mut i: usize = 0;
    while i < count
        invariant
            i <= count <= bytes@.len(),
            bytes@ == encode_utf8(text@),
            forall|j: int| 0 <= j < i ==> bytes@[j] == 48u8,
        decreases count - i,
    {
        if bytes[i] != 48u8 {
            return false;
        }
        i += 1;
    }
    true
}

/// The hash of a block, given what its hash covers before the nonce.
fn hash_with_nonce(prefix: &Vec<u8>, nonce: u64) -> (res: String)
    ensures
        res@ == hex_encoding(sha256_digest(prefix@ + decimal(nonce as nat))),
        res@.len() == 64,
        is_lower_hex(res@),
{
    let mut data: Vec<u8> = Vec::new();
    append_bytes(&mut data, prefix.as_slice());
    append_decimal(&mut data, nonce);
    assert(data@ =~= prefix@ + decimal(nonce as nat));
    let digest = sha256(data.as_slice());
    proof {
        lemma_hex_encoding_shape(digest@);
    }
    hex_encode(digest.as_slice())
}

/// Whether the hash of what a block hash covers before the nonce, followed by
/// `nonce`, meets the difficulty.
pub open spec fn prefix_solves(prefix: Seq<u8>, nonce: u64, difficulty: nat) -> bool {
    meets_difficulty(hex_encoding(sha256_digest(prefix + decimal(nonce as nat))), difficulty)
}

/// Searches the nonces from `start` up for the first whose hash meets the difficulty.
fn search_nonce(prefix: &Vec<u8>, start: u64, difficulty: usize) -> (res: Option<(u64, String)>)
    ensures
        match res {
            Some((nonce, hash)) => {
                &&& start <= nonce
                &&& hash@ == hex_encoding(sha256_digest(prefix@ + decimal(nonce as nat)))
                &&& hash@.len() == 64
                &&& is_lower_hex(hash@)
                &&& prefix_solves(prefix@, nonce, difficulty as nat)
                &&& forall|m: u64| start <= m < nonce ==> !#[trigger] prefix_solves(prefix@, m, difficulty as nat)
            },
            None => forall|m: u64| start <= m ==> !#[trigger] prefix_solves(prefix@, m, difficulty as nat),
        },
{
    let mut nonce: u64 = start;
    loop
        invariant
            start <= nonce,
            forall|m: u64| start <= m < nonce ==> !#[trigger] prefix_solves(prefix@, m, difficulty as nat),
        decreases u64::MAX - nonce,
    {
        let hash = hash_with_nonce(prefix, nonce);
        if starts_with_zeros(hash.as_str(), difficulty) {
            return Some((nonce, hash));
        }
        if nonce == u64::MAX {
            return None;
        }
        nonce = nonce + 1;
    }
}

impl Block {
    fn hash_input_prefix(&self) -> (res: Vec<u8>)
        ensures
            res@ == hash_input_prefix(self@),
    {
        let mut out: Vec<u8> = Vec::new();
        append_decimal(&mut out, self.index);
        append_signed_decimal(&mut out, self.timestamp);
        append_transactions_json(&mut out, &self.transactions);
        append_bytes(&mut out, self.previous_hash.as_str().as_bytes());
        assert(out@ =~= hash_input_prefix(self@));
        out
    }

    /// The SHA-256 hash of the block, in hexadecimal.
    pub fn compute_hash(&self) -> (res: String)
        ensures
            res@ == block_hash(self@),
            res@.len() == 64,
            is_lower_hex(res@),
    {
        let prefix = self.hash_input_prefix();
        hash_with_nonce(&prefix, self.nonce)
    }

    /// Proof of work: tries the nonces from the current one up until the hash starts
    /// with `difficulty` zeros, and keeps that hash. Fails when no nonce up to the
    /// largest one does.
    fn mine(&mut self, difficulty: usize) -> (found: bool)
        ensures
            found ==> final(self)@ == mined_block(old(self)@, final(self).nonce)
                && first_solution_from(old(self)@, old(self).nonce, difficulty as nat, final(self).nonce)
                && final(self).hash@.len() == 64 && is_lower_hex(final(self).hash@),
            !found ==> forall|m: u64|
                old(self).nonce <= m ==> !#[trigger] nonce_solves(old(self)@, m, difficulty as nat),
    {
        let prefix = self.hash_input_prefix();
        let ghost b = self@;
        assert forall|m: u64| #[trigger] nonce_solves(b, m, difficulty as nat) == prefix_solves(prefix@, m, difficulty as nat) by {
            assert(hash_input(with_nonce(b, m)) =~= prefix@ + decimal(m as nat));
        }
        match search_nonce(&prefix, self.nonce, difficulty) {
            Some((nonce, hash)) => {
                self.nonce = nonce;
                self.hash = hash;
                assert(hash_input(with_nonce(b, nonce)) =~= prefix@ + decimal(nonce as nat));
                assert(self@ =~= mined_block(b, nonce));
                true
            },
            None => false,
        }
    }

    /// Creates a block stamped with the current time and mines it. A hash has 64
    /// digits, so a difficulty above 64 could never be met.
    pub fn new(
        index: u64,
        transactions: Vec<Transaction>,
        previous_hash: String,
        miner: String,
        difficulty: usize,
    ) -> (res: Option<Block>)
        requires
            difficulty <= 64,
        ensures
            exists|timestamp: i64|
                mining_outcome(
                    #[trigger] block_template(
                        index,
                        timestamp,
                        transactions_view(transactions@),
                        previous_hash@,
                        miner@,
                    ),
                    difficulty as nat,
                    res,
                ),
            res matches Some(b) ==> b.hash@.len() == 64 && forall|i: int|
                0 <= i < difficulty ==> #[trigger] b.hash@[i] == '0',
    {
        let timestamp = now_millis();
        Block::mine_at(index, timestamp, transactions, previous_hash, miner, difficulty)
    }

    /// Creates a block with the given timestamp and mines it from nonce zero.
    pub fn mine_at(
        index: u64,
        timestamp: i64,
        transactions: Vec<Transaction>,
        previous_hash: String,
        miner: String,
        difficulty: usize,
    ) -> (res: Option<Block>)
        requires
            difficulty <= 64,
        ensures
            mining_outcome(
                block_template(
                    index,
                    timestamp,
                    transactions_view(transactions@),
                    previous_hash@,
                    miner@,
                ),
                difficulty as nat,
                res,
            ),
            res matches Some(b) ==> b.hash@.len() == 64 && forall|i: int|
                0 <= i < difficulty ==> #[trigger] b.hash@[i] == '0',
    {
        let mut block = Block {
            index,
            timestamp,
            transactions,
            previous_hash,
            hash: String::new(),
            nonce: 0,
            miner,
        };
        assert(block@ == block_template(
            index,
            timestamp,
            transactions_view(block.transactions@),
            block.previous_hash@,
            block.miner@,
        ));
        if block.mine(difficulty) {
            proof {
                lemma_meets_difficulty_is_zero_prefix(block.hash@, difficulty as nat);
            }
            Some(block)
        } else {
            None
        }
    }

    /// Whether the stored hash is the block's hash and starts with `difficulty` zeros.
    pub fn is_valid_hash(&self, difficulty: usize) -> (res: bool)
        ensures
            res == (self.hash@ == block_hash(self@) && meets_difficulty(self.hash@, difficulty as nat)),
            res == (self.hash@ == block_hash(self@) && difficulty <= self.hash@.len() && forall|i: int|
                0 <= i < difficulty ==> self.hash@[i] == '0'),
    {
        proof {
            lemma_meets_difficulty_is_zero_prefix(self.hash@, difficulty as nat);
        }
        let computed = self.compute_hash();
        self.hash == computed && starts_with_zeros(self.hash.as_str(), difficulty)
    }
}

/// What mining a block template gives: the block with the least nonce whose hash
/// meets the difficulty, or nothing when no nonce does.
pub open spec fn mining_outcome(template: BlockView, difficulty: nat, res: Option<Block>) -> bool {
    match res {
        Some(b) => {
            &&& first_solution_from(template, 0, difficulty, b.nonce)
            &&& b@ == mined_block(template, b.nonce)
            &&& b@.hash.len() == 64
            &&& is_lower_hex(b@.hash)
        },
        None => forall|m: u64| !#[trigger] nonce_solves(template, m, difficulty),
    }
}

/// `chrono::Utc::now().timestamp_millis()`: the current time in milliseconds since
/// the Unix epoch. It reads the clock, so nothing is said of it.
#[verifier::external_body]
pub(crate) fn now_millis() -> i64 {
    chrono::Utc::now().timestamp_millis()
}

// ---------------------------------------------------------------------------
// The blockchain
// ---------------------------------------------------------------------------

/// An ordered list of blocks, opened by a genesis block, and a mempool of
/// transactions waiting to be mined.
#[derive(Debug)]
pub struct Blockchain {
    pub chain: Vec<Block>,
    pub pending_transactions: Vec<Transaction>,
    /// How many leading zeros a block hash needs.
    pub difficulty: usize,
    /// The coinbase amount, as the JSON text of the number.
    pub mining_reward: String,
}

/// The contents of a blockchain.
pub struct BlockchainView {
    pub chain: Seq<BlockView>,
    pub pending_transactions: Seq<TransactionView>,
    /// How many leading zeros a block hash needs.
    pub difficulty: usize,
    /// The coinbase amount, as the JSON text of the number.
    pub mining_reward: Seq<char>,
}

impl View for Blockchain {
    type V = BlockchainView;

    open spec fn view(&self) -> BlockchainView {
        BlockchainView {
            chain: blocks_view(self.chain@),
            pending_transactions: transactions_view(self.pending_transactions@),
            difficulty: self.difficulty,
            mining_reward: self.mining_reward@,
        }
    }
}

/// The first block: index 0, time 0, no transactions, a previous hash of 64
/// zeros, and `GENESIS` as hash and miner.
pub open spec fn genesis_block() -> BlockView {
    BlockView {
        index: 0,
        timestamp: 0,
        transactions: Seq::empty(),
        previous_hash: Seq::new(64, |i: int| '0'),
        hash: "GENESIS"@,
        nonce: 0,
        miner: "GENESIS"@,
    }
}

/// Every block after the first holds its own hash and the hash of the block before it.
pub open spec fn chain_valid(chain: Seq<BlockView>) -> bool {
    forall|i: int|
        1 <= i < chain.len() ==> {
            &&& (#[trigger] chain[i]).hash == block_hash(chain[i])
            &&& chain[i].previous_hash == chain[i - 1].hash
        }
}

/// The mining reward paid to `miner`: from `COINBASE`, signed `COINBASE`.
pub open spec fn reward_transaction(
    id: Seq<char>,
    miner: Seq<char>,
    reward: Seq<char>,
    timestamp: i64,
) -> TransactionView {
    TransactionView {
        id,
        from: "COINBASE"@,
        to: miner,
        amount: reward,
        timestamp,
        signature: "COINBASE"@,
    }
}

/// The block that mining the mempool starts from: the next index, the pending
/// transactions followed by the reward, linked to the last block.
pub open spec fn next_block_template(
    bc: BlockchainView,
    miner: Seq<char>,
    reward_id: Seq<char>,
    reward_timestamp: i64,
    block_timestamp: i64,
) -> BlockView {
    block_template(
        bc.chain.len() as u64,
        block_timestamp,
        bc.pending_transactions.push(
            reward_transaction(reward_id, miner, bc.mining_reward, reward_timestamp),
        ),
        bc.chain.last().hash,
        miner,
    )
}

/// What mining the mempool does: on success the mined block is appended and the
/// mempool emptied; when no nonce meets the difficulty nothing changes.
pub open spec fn mining_step(
    before: BlockchainView,
    after: BlockchainView,
    miner: Seq<char>,
    reward_id: Seq<char>,
    reward_timestamp: i64,
    block_timestamp: i64,
    res: Option<Block>,
) -> bool {
    let template = next_block_template(before, miner, reward_id, reward_timestamp, block_timestamp);
    &&& mining_outcome(template, before.difficulty as nat, res)
    &&& match res {
        Some(b) => after == BlockchainView {
            chain: before.chain.push(b@),
            pending_transactions: Seq::empty(),
            ..before
        },
        None => after == before,
    }
}

/// Mining the mempool for `miner`, with some reward identifier and timestamps,
/// takes the chain from `before` to `after` and gives `res`.
pub open spec fn mined_by(
    before: BlockchainView,
    after: BlockchainView,
    miner: Seq<char>,
    res: Option<Block>,
) -> bool {
    exists|reward_id: Seq<char>, reward_timestamp: i64, block_timestamp: i64|
        #[trigger] mining_step(
            before,
            after,
            miner,
            reward_id,
            reward_timestamp,
            block_timestamp,
            res,
        )
}

fn genesis() -> (res: Block)
    ensures
        res@ == genesis_block(),
{
    let mut zeros = String::new();
    let mut i: usize = 0;
    while i < 64
        invariant
            i <= 64,
            zeros@ == Seq::new(i as nat, |j: int| '0'),
        decreases 64 - i,
    {
        proof {
            reveal_strlit("0");
        }
        zeros.append("0");
        i += 1;
        assert(zeros@ =~= Seq::new(i as nat, |j: int| '0'));
    }
    let res = Block {
        index: 0,
        timestamp: 0,
        transactions: Vec::new(),
        previous_hash: zeros,
        hash: String::from_str("GENESIS"),
        nonce: 0,
        miner: String::from_str("GENESIS"),
    };
    assert(res@.transactions =~= Seq::<TransactionView>::empty());
    res
}

impl Blockchain {
    /// A chain of the genesis block alone, an empty mempool, difficulty 3 and a
    /// reward of 50 coins.
    pub fn new() -> (res: Blockchain)
        ensures
            res@ == (BlockchainView {
                chain: seq![genesis_block()],
                pending_transactions: Seq::empty(),
                difficulty: 3,
                mining_reward: "50.0"@,
            }),
            chain_valid(res@.chain),
            res@.chain.len() == 1,
            res@.chain[0].index == 0,
            res@.chain[0].transactions.len() == 0,
            res@.chain[0].previous_hash.len() == 64,
            forall|i: int| 0 <= i < 64 ==> #[trigger] res@.chain[0].previous_hash[i] == '0',
            res@.chain[0].hash == "GENESIS"@,
    {
        let mut chain: Vec<Block> = Vec::new();
        chain.push(genesis());
        let res = Blockchain {
            chain,
            pending_transactions: Vec::new(),
            difficulty: 3,
            mining_reward: String::from_str("50.0"),
        };
        assert(res@.chain =~= seq![genesis_block()]);
        assert(res@.pending_transactions =~= Seq::<TransactionView>::empty());
        res
    }

    /// The tip of the chain.
    pub fn latest_block(&self) -> (res: &Block)
        requires
            self@.chain.len() > 0,
        ensures
            res@ == self@.chain.last(),
    {
        &self.chain[self.chain.len() - 1]
    }

    /// Adds a transaction to the mempool.
    pub fn add_transaction(&mut self, tx: Transaction)
        ensures
            final(self)@ == (BlockchainView {
                pending_transactions: old(self)@.pending_transactions.push(tx@),
                ..old(self)@
            }),
    {
        self.pending_transactions.push(tx);
        assert(self@.pending_transactions =~= old(self)@.pending_transactions.push(tx@));
    }

    /// Mines the mempool and a reward to `miner_address` into a new block, drawing
    /// a fresh identifier for the reward and reading the clock.
    pub fn mine_pending_transactions(&mut self, miner_address: &str) -> (res: Option<Block>)
        requires
            old(self)@.chain.len() > 0,
            old(self)@.difficulty <= 64,
        ensures
            mined_by(old(self)@, final(self)@, miner_address@, res),
            chain_valid(old(self)@.chain) ==> chain_valid(final(self)@.chain),
    {
        let reward_id = new_transaction_id();
        let reward_timestamp = now_millis();
        let block_timestamp = now_millis();
        let ghost id = reward_id@;
        let res = self.mine_pending_transactions_at(
            miner_address,
            reward_id,
            reward_timestamp,
            block_timestamp,
        );
        assert(mining_step(
            old(self)@,
            self@,
            miner_address@,
            id,
            reward_timestamp,
            block_timestamp,
            res,
        ));
        res
    }

    /// Mines the mempool and a reward to `miner_address` into a new block, with the
    /// given reward identifier and timestamps. On success the block is appended
    /// and the mempool emptied.
    pub fn mine_pending_transactions_at(
        &mut self,
        miner_address: &str,
        reward_id: String,
        reward_timestamp: i64,
        block_timestamp: i64,
    ) -> (res: Option<Block>)
        requires
            old(self)@.chain.len() > 0,
            old(self)@.difficulty <= 64,
        ensures
            mining_step(
                old(self)@,
                final(self)@,
                miner_address@,
                reward_id@,
                reward_timestamp,
                block_timestamp,
                res,
            ),
            chain_valid(old(self)@.chain) ==> chain_valid(final(self)@.chain),
    {
        let reward = Transaction {
            id: reward_id,
            from: String::from_str("COINBASE"),
            to: String::from_str(miner_address),
            amount: self.mining_reward.clone(),
            timestamp: reward_timestamp,
            signature: String::from_str("COINBASE"),
        };
        let mut txs = copy_transactions(&self.pending_transactions);
        txs.push(reward);
        let index = self.chain.len() as u64;
        let previous_hash = self.chain[self.chain.len() - 1].hash.clone();
        assert(transactions_view(txs@) =~= old(self)@.pending_transactions.push(
            reward_transaction(reward_id@, miner_address@, old(self)@.mining_reward, reward_timestamp),
        ));
        let mined = Block::mine_at(
            index,
            block_timestamp,
            txs,
            previous_hash,
            String::from_str(miner_address),
            self.difficulty,
        );
        match mined {
            Some(block) => {
                let copy = block.clone();
                self.chain.push(block);
                self.pending_transactions.clear();
                assert(self@.chain =~= old(self)@.chain.push(copy@));
                assert(self@.pending_transactions =~= Seq::<TransactionView>::empty());
                proof {
                    if chain_valid(old(self)@.chain) {
                        lemma_linked_block_keeps_chain_valid(old(self)@.chain, copy@);
                    }
                }
                Some(copy)
            },
            None => None,
        }
    }

    /// Walks the chain and checks that every block after the first holds its own
    /// hash and the hash of the block before it.
    pub fn is_valid(&self) -> (res: bool)
        ensures
            res == chain_valid(self@.chain),
            res == (forall|i: int|
                1 <= i < self@.chain.len() ==> {
                    &&& (#[trigger] self@.chain[i]).hash == block_hash(self@.chain[i])
                    &&& self@.chain[i].previous_hash == self@.chain[i - 1].hash
                }),
    {
        let mut i: usize = 1;
        while i < self.chain.len()
            invariant
                1 <= i,
                i <= self.chain@.len() || self.chain@.len() == 0,
                forall|j: int|
                    1 <= j < i && j < self@.chain.len() ==> {
                        &&& (#[trigger] self@.chain[j]).hash == block_hash(self@.chain[j])
                        &&& self@.chain[j].previous_hash == self@.chain[j - 1].hash
                    },
            decreases self.chain@.len() - i,
        {
            let current = &self.chain[i];
            let previous = &self.chain[i - 1];
            let computed = current.compute_hash();
            assert(self@.chain[i as int] == current@);
            assert(self@.chain[i - 1] == previous@);
            if current.hash != computed {
                assert(!(self@.chain[i as int].hash == block_hash(self@.chain[i as int])));
                return false;
            }
            if current.previous_hash != previous.hash {
                assert(!(self@.chain[i as int].previous_hash == self@.chain[i - 1].hash));
                return false;
            }
            i += 1;
        }
        true
    }
}

/// Appending a block that holds its own hash and the hash of the last block keeps
/// a valid chain valid.
pub proof fn lemma_linked_block_keeps_chain_valid(chain: Seq<BlockView>, b: BlockView)
    requires
        chain_valid(chain),
        chain.len() > 0,
        b.hash == block_hash(b),
        b.previous_hash == chain.last().hash,
    ensures
        chain_valid(chain.push(b)),
{
    let next = chain.push(b);
    assert forall|i: int| 1 <= i < next.len() implies {
        &&& (#[trigger] next[i]).hash == block_hash(next[i])
        &&& next[i].previous_hash == next[i - 1].hash
    } by {
        if i < chain.len() {
            assert(next[i] == chain[i]);
            assert(next[i - 1] == chain[i - 1]);
        }
    }
}

/// `uuid::Uuid::new_v4().to_string()`: a fresh random identifier. It is drawn at
/// random, so nothing is said of it.
#[verifier::external_body]
pub(crate) fn new_transaction_id() -> String {
    uuid::Uuid::new_v4().to_string()
}

// ---------------------------------------------------------------------------
// Balances
// ---------------------------------------------------------------------------

/// One movement of coins on an address: a credit when it receives, a debit when it sends.
#[derive(Debug)]
pub struct LedgerEntry {
    pub credit: bool,
    /// The amount, as the JSON text of the number.
    pub amount: String,
}

/// The contents of a ledger entry.
pub struct LedgerEntryView {
    pub credit: bool,
    pub amount: Seq<char>,
}

impl View for LedgerEntry {
    type V = LedgerEntryView;

    open spec fn view(&self) -> LedgerEntryView {
        LedgerEntryView { credit: self.credit, amount: self.amount@ }
    }
}

/// The contents of a list of ledger entries.
pub open spec fn entries_view(v: Seq<LedgerEntry>) -> Seq<LedgerEntryView> {
    v.map_values(|e: LedgerEntry| e@)
}

/// What a transaction moves on an address: a credit if the address receives,
/// then a debit if it sends.
pub open spec fn transaction_entries(t: TransactionView, address: Seq<char>) -> Seq<LedgerEntryView> {
    (if t.to == address {
        seq![LedgerEntryView { credit: true, amount: t.amount }]
    } else {
        Seq::empty()
    }) + (if t.from == address {
        seq![LedgerEntryView { credit: false, amount: t.amount }]
    } else {
        Seq::empty()
    })
}

/// What a list of transactions moves on an address, in order.
pub open spec fn transactions_entries(ts: Seq<TransactionView>, address: Seq<char>) -> Seq<
    LedgerEntryView,
>
    decreases ts.len(),
{
    if ts.len() == 0 {
        Seq::empty()
    } else {
        transactions_entries(ts.drop_last(), address) + transaction_entries(ts.last(), address)
    }
}

/// What the confirmed blocks move on an address, block by block, in order.
pub open spec fn chain_entries(chain: Seq<BlockView>, address: Seq<char>) -> Seq<LedgerEntryView>
    decreases chain.len(),
{
    if chain.len() == 0 {
        Seq::empty()
    } else {
        chain_entries(chain.drop_last(), address) + transactions_entries(
            chain.last().transactions,
            address,
        )
    }
}

fn append_transaction_entries(out: &mut Vec<LedgerEntry>, t: &Transaction, address: &str)
    ensures
        entries_view(final(out)@) == entries_view(old(out)@) + transaction_entries(t@, address@),
{
    let ghost start = entries_view(out@);
    if same_text(t.to.as_str(), address) {
        out.push(LedgerEntry { credit: true, amount: t.amount.clone() });
    }
    let ghost middle = entries_view(out@);
    assert(middle =~= start + (if t@.to == address@ {
        seq![LedgerEntryView { credit: true, amount: t@.amount }]
    } else {
        Seq::empty()
    }));
    if same_text(t.from.as_str(), address) {
        out.push(LedgerEntry { credit: false, amount: t.amount.clone() });
    }
    assert(entries_view(out@) =~= start + transaction_entries(t@, address@));
}

impl Blockchain {
    /// The movements of coins on `address` across all confirmed blocks, in chain
    /// order: the balance is the sum of the credits less the sum of the debits.
    pub fn balance_entries(&self, address: &str) -> (res: Vec<LedgerEntry>)
        ensures
            entries_view(res@) == chain_entries(self@.chain, address@),
    {
        let mut res: Vec<LedgerEntry> = Vec::new();
        let ghost chain = self@.chain;
        let mut i: usize = 0;
        while i < self.chain.len()
            invariant
                i <= self.chain@.len(),
                chain == blocks_view(self.chain@),
                entries_view(res@) == chain_entries(chain.take(i as int), address@),
            decreases self.chain@.len() - i,
        {
            let block = &self.chain[i];
            let ghost txs = block@.transactions;
            let ghost before = entries_view(res@);
            let mut j: usize = 0;
            while j < block.transactions.len()
                invariant
                    j <= block.transactions@.len(),
                    txs == transactions_view(block.transactions@),
                    entries_view(res@) == before + transactions_entries(txs.take(j as int), address@),
                decreases block.transactions@.len() - j,
            {
                append_transaction_entries(&mut res, &block.transactions[j], address);
                j += 1;
                assert(txs.take(j as int).drop_last() =~= txs.take(j - 1));
                assert(entries_view(res@) =~= before + transactions_entries(txs.take(j as int), address@));
            }
            assert(txs.take(j as int) =~= txs);
            i += 1;
            assert(chain.take(i as int).drop_last() =~= chain.take(i - 1));
            assert(chain.take(i as int).last() == block@);
            assert(entries_view(res@) =~= chain_entries(chain.take(i as int), address@));
        }
        assert(chain.take(i as int) =~= chain);
        res
    }
}

// ---------------------------------------------------------------------------
// Laws
// ---------------------------------------------------------------------------

/// A block appended to the chain adds its own movements after those of the
/// blocks before it.
pub proof fn lemma_entries_of_appended_block(chain: Seq<BlockView>, b: BlockView, address: Seq<char>)
    ensures
        chain_entries(chain.push(b), address) == chain_entries(chain, address) + transactions_entries(
            b.transactions,
            address,
        ),
{
    assert(chain.push(b).drop_last() =~= chain);
}

/// Mining rewards the miner: after a mined block is appended, the last movement on
/// the miner's address is the credit of the reward (unless the miner's address is
/// `COINBASE` itself, which the reward also debits).
pub proof fn lemma_mining_credits_miner(
    chain: Seq<BlockView>,
    b: BlockView,
    reward_id: Seq<char>,
    miner: Seq<char>,
    reward: Seq<char>,
    reward_timestamp: i64,
)
    requires
        b.transactions.len() > 0,
        b.transactions.last() == reward_transaction(reward_id, miner, reward, reward_timestamp),
        miner != "COINBASE"@,
    ensures
        chain_entries(chain.push(b), miner).len() > 0,
        chain_entries(chain.push(b), miner).last() == (LedgerEntryView { credit: true, amount: reward }),
{
    lemma_entries_of_appended_block(chain, b, miner);
    let r = reward_transaction(reward_id, miner, reward, reward_timestamp);
    assert(transaction_entries(r, miner) =~= seq![LedgerEntryView { credit: true, amount: reward }]);
}

/// A freshly mined block holds its own hash, which meets the difficulty: the block
/// passes `is_valid_hash` for the difficulty it was mined at.
pub proof fn lemma_mined_block_has_valid_hash(template: BlockView, difficulty: nat, nonce: u64)
    requires
        nonce_solves(template, nonce, difficulty),
    ensures
        mined_block(template, nonce).hash == block_hash(mined_block(template, nonce)),
        meets_difficulty(mined_block(template, nonce).hash, difficulty),
{
    assert(hash_input(mined_block(template, nonce)) =~= hash_input(with_nonce(template, nonce)));
}

/// After a successful mining of the mempool, the last movement on the miner's
/// address is the credit of the mining reward (for any address but `COINBASE`).
pub proof fn lemma_mining_step_credits_miner(
    before: BlockchainView,
    after: BlockchainView,
    miner: Seq<char>,
    reward_id: Seq<char>,
    reward_timestamp: i64,
    block_timestamp: i64,
    res: Option<Block>,
)
    requires
        mining_step(before, after, miner, reward_id, reward_timestamp, block_timestamp, res),
        res is Some,
        miner != "COINBASE"@,
    ensures
        chain_entries(after.chain, miner).len() > 0,
        chain_entries(after.chain, miner).last() == (LedgerEntryView {
            credit: true,
            amount: before.mining_reward,
        }),
{
    let b = res->0;
    lemma_mining_credits_miner(
        before.chain,
        b@,
        reward_id,
        miner,
        before.mining_reward,
        reward_timestamp,
    );
}

/// The block hash covers index, timestamp, transactions, previous hash and nonce:
/// neither the miner nor the stored hash is part of it.
pub proof fn lemma_hash_ignores_miner_and_stored_hash(b: BlockView, miner: Seq<char>, hash: Seq<char>)
    ensures
        block_hash(BlockView { miner, hash, ..b }) == block_hash(b),
{
    assert(hash_input(BlockView { miner, hash, ..b }) =~= hash_input(b));
}

/// Tamper detection: replacing a block after the first in a valid chain by one
/// that keeps the stored hash but changes what the hash covers makes the chain
/// invalid, provided SHA-256 does not give the old and the new input the same digest.
pub proof fn lemma_tampering_breaks_validity(chain: Seq<BlockView>, i: int, forged: BlockView)
    requires
        chain_valid(chain),
        1 <= i < chain.len(),
        forged.hash == chain[i].hash,
        hash_input(forged) != hash_input(chain[i]),
        sha256_digest(hash_input(forged)) == sha256_digest(hash_input(chain[i])) ==> hash_input(
            forged,
        ) == hash_input(chain[i]),
    ensures
        !chain_valid(chain.update(i, forged)),
{
    let tampered = chain.update(i, forged);
    assert(chain[i].hash == block_hash(chain[i]));
    if chain_valid(tampered) {
        assert(tampered[i] == forged);
        assert(forged.hash == block_hash(forged));
        lemma_hex_encoding_injective(
            sha256_digest(hash_input(forged)),
            sha256_digest(hash_input(chain[i])),
        );
    }
}

/// A block after the first whose previous hash is not the hash of the block before
/// it makes the chain invalid, whatever the blocks hold otherwise.
pub proof fn lemma_broken_link_is_invalid(chain: Seq<BlockView>, i: int)
    requires
        1 <= i < chain.len(),
        chain[i].previous_hash != chain[i - 1].hash,
    ensures
        !chain_valid(chain),
{
    assert(!(chain[i].previous_hash == chain[i - 1].hash));
}

/// A block after the first that does not hold its own hash makes the chain invalid.
pub proof fn lemma_wrong_hash_is_invalid(chain: Seq<BlockView>, i: int)
    requires
        1 <= i < chain.len(),
        chain[i].hash != block_hash(chain[i]),
    ensures
        !chain_valid(chain),
{
    assert(!(chain[i].hash == block_hash(chain[i])));
}

/// Re-hashing does not hide tampering: in a valid chain, replacing a block that has
/// a successor by one with another stored hash (such as the block altered and
/// re-hashed) breaks the link from its successor, and the chain is invalid.
pub proof fn lemma_rehashed_block_breaks_next_link(chain: Seq<BlockView>, i: int, forged: BlockView)
    requires
        chain_valid(chain),
        1 <= i,
        i + 1 < chain.len(),
        forged.hash != chain[i].hash,
    ensures
        chain.update(i, forged)[i + 1].previous_hash != chain.update(i, forged)[i].hash,
        !chain_valid(chain.update(i, forged)),
{
    let tampered = chain.update(i, forged);
    assert(chain[i + 1].previous_hash == chain[i + 1 - 1].hash);
    assert(tampered[i + 1] == chain[i + 1]);
    assert(tampered[i] == forged);
    lemma_broken_link_is_invalid(tampered, i + 1);
}

/// Every prefix of a valid chain is valid.
pub proof fn lemma_chain_valid_prefix(chain: Seq<BlockView>, n: int)
    requires
        chain_valid(chain),
        0 <= n <= chain.len(),
    ensures
        chain_valid(chain.take(n)),
{
    let p = chain.take(n);
    assert forall|i: int| 1 <= i < p.len() implies {
        &&& (#[trigger] p[i]).hash == block_hash(p[i])
        &&& p[i].previous_hash == p[i - 1].hash
    } by {
        assert(p[i] == chain[i]);
        assert(p[i - 1] == chain[i - 1]);
    }
}

/// Appending a transaction to a list adds, after the movements of the list, a
/// credit of its amount if it pays the address and then a debit of its amount if
/// the address sent it, whatever the transactions before it are.
pub proof fn lemma_entries_of_pushed_transaction(
    ts: Seq<TransactionView>,
    t: TransactionView,
    address: Seq<char>,
)
    ensures
        transactions_entries(ts.push(t), address) == transactions_entries(ts, address) + (if t.to
            == address {
            seq![LedgerEntryView { credit: true, amount: t.amount }]
        } else {
            Seq::empty()
        }) + (if t.from == address {
            seq![LedgerEntryView { credit: false, amount: t.amount }]
        } else {
            Seq::empty()
        }),
{
    assert(ts.push(t).drop_last() =~= ts);
    assert(ts.push(t).last() == t);
    let credit = if t.to == address {
        seq![LedgerEntryView { credit: true, amount: t.amount }]
    } else {
        Seq::empty()
    };
    let debit = if t.from == address {
        seq![LedgerEntryView { credit: false, amount: t.amount }]
    } else {
        Seq::empty()
    };
    assert(transactions_entries(ts, address) + (credit + debit) =~= transactions_entries(ts, address)
        + credit + debit);
}

/// The movements of two lists of transactions, one after the other, are the
/// movements of the first followed by those of the second.
pub proof fn lemma_entries_of_concatenated_transactions(
    first: Seq<TransactionView>,
    second: Seq<TransactionView>,
    address: Seq<char>,
)
    ensures
        transactions_entries(first + second, address) == transactions_entries(first, address)
            + transactions_entries(second, address),
    decreases second.len(),
{
    if second.len() == 0 {
        assert(first + second =~= first);
        assert(transactions_entries(first, address) + Seq::<LedgerEntryView>::empty() =~= transactions_entries(first, address));
    } else {
        let t = second.last();
        let rest = second.drop_last();
        lemma_entries_of_concatenated_transactions(first, rest, address);
        assert(first + second =~= (first + rest).push(t));
        assert(second =~= rest.push(t));
        lemma_entries_of_pushed_transaction(first + rest, t, address);
        lemma_entries_of_pushed_transaction(rest, t, address);
        let credit = if t.to == address {
            seq![LedgerEntryView { credit: true, amount: t.amount }]
        } else {
            Seq::empty()
        };
        let debit = if t.from == address {
            seq![LedgerEntryView { credit: false, amount: t.amount }]
        } else {
            Seq::empty()
        };
        assert(transactions_entries(first, address) + transactions_entries(rest, address) + credit
            + debit =~= transactions_entries(first, address) + (transactions_entries(rest, address)
            + credit + debit));
    }
}

/// The movements of two stretches of blocks, one after the other, are the
/// movements of the first followed by those of the second.
pub proof fn lemma_entries_of_concatenated_chains(
    first: Seq<BlockView>,
    second: Seq<BlockView>,
    address: Seq<char>,
)
    ensures
        chain_entries(first + second, address) == chain_entries(first, address) + chain_entries(
            second,
            address,
        ),
    decreases second.len(),
{
    if second.len() == 0 {
        assert(first + second =~= first);
        assert(chain_entries(first, address) + Seq::<LedgerEntryView>::empty() =~= chain_entries(first, address));
    } else {
        let b = second.last();
        let rest = second.drop_last();
        lemma_entries_of_concatenated_chains(first, rest, address);
        assert(first + second =~= (first + rest).push(b));
        assert(second =~= rest.push(b));
        lemma_entries_of_appended_block(first + rest, b, address);
        lemma_entries_of_appended_block(rest, b, address);
        let own = transactions_entries(b.transactions, address);
        assert(chain_entries(first, address) + chain_entries(rest, address) + own =~= chain_entries(
            first,
            address,
        ) + (chain_entries(rest, address) + own));
    }
}

/// An empty list of transactions is the JSON array `[]`.
pub proof fn lemma_json_of_no_transactions()
    ensures
        transactions_json(Seq::empty()) == seq![91u8, 93u8],
{
    assert(transactions_json(Seq::empty()) =~= seq![91u8, 93u8]);
}

/// A single transaction is its JSON object in brackets.
pub proof fn lemma_json_of_one_transaction(t: TransactionView)
    ensures
        transactions_json(seq![t]) == seq![91u8] + transaction_json(t) + seq![93u8],
{
}

/// Appending a transaction to a nonempty list writes a comma and its JSON object
/// before the closing bracket: the array of `ts` pushed with `t` is the array of
/// `ts` without its `]`, then `,`, the object of `t` and `]`.
pub proof fn lemma_json_of_pushed_transaction(ts: Seq<TransactionView>, t: TransactionView)
    requires
        ts.len() > 0,
    ensures
        transactions_json(ts.push(t)) == transactions_json(ts).drop_last() + seq![44u8]
            + transaction_json(t) + seq![93u8],
{
    assert(ts.push(t).drop_last() =~= ts);
    assert(ts.push(t).last() == t);
    assert(transactions_json(ts).drop_last() =~= seq![91u8] + transaction_items_json(ts));
    assert(transactions_json(ts.push(t)) =~= seq![91u8] + transaction_items_json(ts) + seq![44u8]
        + transaction_json(t) + seq![93u8]);
}

/// The items of two nonempty lists, one after the other, are the items of the
/// first, a comma, and the items of the second: every two neighbouring objects of
/// the array are separated by exactly one comma.
pub proof fn lemma_json_items_of_concatenation(first: Seq<TransactionView>, second: Seq<TransactionView>)
    requires
        first.len() > 0,
        second.len() > 0,
    ensures
        transaction_items_json(first + second) == transaction_items_json(first) + seq![44u8]
            + transaction_items_json(second),
    decreases second.len(),
{
    let t = second.last();
    let rest = second.drop_last();
    assert(first + second =~= (first + rest).push(t));
    assert((first + rest).push(t).drop_last() =~= first + rest);
    if rest.len() == 0 {
        assert(first + rest =~= first);
        assert(second =~= seq![t]);
    } else {
        lemma_json_items_of_concatenation(first, rest);
        assert(second =~= rest.push(t));
        assert(rest.push(t).drop_last() =~= rest);
        assert(transaction_items_json(first) + seq![44u8] + transaction_items_json(rest) + seq![44u8]
            + transaction_json(t) =~= transaction_items_json(first) + seq![44u8] + (
        transaction_items_json(rest) + seq![44u8] + transaction_json(t)));
    }
}

/// The UTF-8 encoding of a character starts with the byte of `0` exactly when the
/// character is `0`, which is then its only byte.
proof fn lemma_zero_digit_byte(c: char)
    ensures
        encode_scalar(c as u32).len() > 0,
        encode_scalar(c as u32)[0] == 48u8 <==> c == '0',
        c == '0' ==> encode_scalar(c as u32) == seq![48u8],
{
    let v = c as u32;
    vstd::utf8::char_is_scalar(c);
    if v <= 0x7F {
        assert(((v & 0x7F) as u8 == 48u8) <==> v == 48u32) by (bit_vector)
            requires
                v <= 0x7F,
        ;
    } else if v <= 0x7FF {
        assert((0xC0u8 | ((v >> 6) & 0x1F) as u8) != 48u8) by (bit_vector);
    } else if v <= 0xFFFF {
        assert((0xE0u8 | ((v >> 12) & 0x0F) as u8) != 48u8) by (bit_vector);
    } else {
        assert((0xF0u8 | ((v >> 18) & 0x7) as u8) != 48u8) by (bit_vector);
    }
}

/// Meeting a difficulty means what it says on the characters: a hash meets
/// difficulty `d` exactly when it has at least `d` characters and the first `d`
/// are all `0`. A hash whose character at a position below `d` is not `0` does not
/// meet difficulty `d`.
pub proof fn lemma_meets_difficulty_is_zero_prefix(hash: Seq<char>, difficulty: nat)
    ensures
        meets_difficulty(hash, difficulty) <==> (difficulty <= hash.len() && forall|i: int|
            0 <= i < difficulty ==> hash[i] == '0'),
    decreases difficulty,
{
    let bytes = encode_utf8(hash);
    if difficulty == 0 {
    } else if hash.len() == 0 {
        assert(bytes =~= Seq::<u8>::empty());
    } else {
        let rest = hash.drop_first();
        let head = encode_scalar(hash[0] as u32);
        assert(bytes == head + encode_utf8(rest));
        lemma_zero_digit_byte(hash[0]);
        lemma_meets_difficulty_is_zero_prefix(rest, (difficulty - 1) as nat);
        if hash[0] == '0' {
            assert(head == seq![48u8]);
            let tail = encode_utf8(rest);
            assert(forall|i: int| 0 < i < bytes.len() ==> bytes[i] == tail[i - 1]);
            assert(bytes[0] == 48u8);
            if meets_difficulty(hash, difficulty) {
                assert forall|i: int| 0 <= i < difficulty - 1 implies tail[i] == 48u8 by {
                    assert(bytes[i + 1] == 48u8);
                }
                assert(meets_difficulty(rest, (difficulty - 1) as nat));
                assert forall|i: int| 0 <= i < difficulty implies hash[i] == '0' by {
                    if i > 0 {
                        assert(hash[i] == rest[i - 1]);
                    }
                }
            }
            if difficulty <= hash.len() && forall|i: int| 0 <= i < difficulty ==> hash[i] == '0' {
                assert forall|i: int| 0 <= i < difficulty - 1 implies rest[i] == '0' by {
                    assert(rest[i] == hash[i + 1]);
                }
                assert(meets_difficulty(rest, (difficulty - 1) as nat));
                assert forall|i: int| 0 <= i < difficulty implies bytes[i] == 48u8 by {
                    if i > 0 {
                        assert(bytes[i] == tail[i - 1]);
                    }
                }
            }
        } else {
            assert(bytes[0] == head[0]);
            assert(!(bytes[0] == 48u8));
            assert(!(hash[0] == '0'));
        }
    }
}

/// A mined block's hash starts with as many `0` characters as the difficulty it
/// was mined at.
pub proof fn lemma_mined_hash_starts_with_zeros(template: BlockView, difficulty: nat, nonce: u64)
    requires
        nonce_solves(template, nonce, difficulty),
    ensures
        difficulty <= mined_block(template, nonce).hash.len(),
        forall|i: int| 0 <= i < difficulty ==> #[trigger] mined_block(template, nonce).hash[i] == '0',
{
    lemma_meets_difficulty_is_zero_prefix(mined_block(template, nonce).hash, difficulty);
}

/// Whether a hash starts with `difficulty` characters `0`.
pub open spec fn zero_prefixed(hash: Seq<char>, difficulty: nat) -> bool {
    &&& difficulty <= hash.len()
    &&& forall|i: int| 0 <= i < difficulty ==> hash[i] == '0'
}

/// Mining a template gives the template itself with the least nonce whose block
/// hash starts with `difficulty` zeros, holding that hash; no block comes out only
/// when no nonce at all gives such a hash.
pub proof fn lemma_mining_outcome_is_least_solution(
    template: BlockView,
    difficulty: nat,
    res: Option<Block>,
)
    requires
        mining_outcome(template, difficulty, res),
    ensures
        res matches Some(b) ==> {
            &&& b@ == (BlockView { nonce: b@.nonce, hash: b@.hash, ..template })
            &&& b@.hash == block_hash(b@)
            &&& b@.hash.len() == 64
            &&& zero_prefixed(b@.hash, difficulty)
            &&& forall|m: u64|
                m < b@.nonce ==> !zero_prefixed(
                    #[trigger] block_hash(BlockView { nonce: m, ..template }),
                    difficulty,
                )
        },
        res is None ==> forall|m: u64|
            !zero_prefixed(#[trigger] block_hash(BlockView { nonce: m, ..template }), difficulty),
{
    match res {
        Some(b) => {
            lemma_mined_block_has_valid_hash(template, difficulty, b.nonce);
            lemma_meets_difficulty_is_zero_prefix(b@.hash, difficulty);
            assert forall|m: u64| m < b@.nonce implies !zero_prefixed(
                #[trigger] block_hash(BlockView { nonce: m, ..template }),
                difficulty,
            ) by {
                assert(!nonce_solves(template, m, difficulty));
                assert(with_nonce(template, m) == BlockView { nonce: m, ..template });
                lemma_meets_difficulty_is_zero_prefix(
                    block_hash(BlockView { nonce: m, ..template }),
                    difficulty,
                );
            }
        },
        None => {
            assert forall|m: u64| !zero_prefixed(
                #[trigger] block_hash(BlockView { nonce: m, ..template }),
                difficulty,
            ) by {
                assert(!nonce_solves(template, m, difficulty));
                assert(with_nonce(template, m) == BlockView { nonce: m, ..template });
                lemma_meets_difficulty_is_zero_prefix(
                    block_hash(BlockView { nonce: m, ..template }),
                    difficulty,
                );
            }
        },
    }
}

/// Mining the mempool appends one block and empties the mempool: the block comes
/// after the last one, with the next index, the block time, the pending
/// transactions in order followed by the reward from `COINBASE` to the miner, and
/// the least nonce whose hash starts with `difficulty` zeros. When no nonce gives
/// such a hash nothing changes.
pub proof fn lemma_mining_step_appends_block(
    before: BlockchainView,
    after: BlockchainView,
    miner: Seq<char>,
    reward_id: Seq<char>,
    reward_timestamp: i64,
    block_timestamp: i64,
    res: Option<Block>,
)
    requires
        mining_step(before, after, miner, reward_id, reward_timestamp, block_timestamp, res),
    ensures
        res matches Some(b) ==> {
            &&& after.chain == before.chain.push(b@)
            &&& after.pending_transactions == Seq::<TransactionView>::empty()
            &&& after.difficulty == before.difficulty
            &&& after.mining_reward == before.mining_reward
            &&& b@.index == before.chain.len() as u64
            &&& b@.timestamp == block_timestamp
            &&& b@.previous_hash == before.chain.last().hash
            &&& b@.miner == miner
            &&& b@.transactions == before.pending_transactions.push(
                TransactionView {
                    id: reward_id,
                    from: "COINBASE"@,
                    to: miner,
                    amount: before.mining_reward,
                    timestamp: reward_timestamp,
                    signature: "COINBASE"@,
                },
            )
            &&& b@.hash == block_hash(b@)
            &&& zero_prefixed(b@.hash, before.difficulty as nat)
            &&& forall|m: u64|
                m < b@.nonce ==> !zero_prefixed(
                    #[trigger] block_hash(with_nonce(b@, m)),
                    before.difficulty as nat,
                )
        },
        res is None ==> after == before,
{
    let template = next_block_template(before, miner, reward_id, reward_timestamp, block_timestamp);
    lemma_mining_outcome_is_least_solution(template, before.difficulty as nat, res);
    if res is Some {
        let b = res->0;
        assert forall|m: u64| m < b@.nonce implies !zero_prefixed(
            #[trigger] block_hash(with_nonce(b@, m)),
            before.difficulty as nat,
        ) by {
            lemma_hash_ignores_miner_and_stored_hash(BlockView { nonce: m, ..template }, miner, b@.hash);
            assert(with_nonce(b@, m) == BlockView {
                miner,
                hash: b@.hash,
                ..BlockView { nonce: m, ..template }
            });
        }
    }
}

} // verus!
