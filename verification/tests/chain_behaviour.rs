use mini_web3::blockchain::{Block, Blockchain, Transaction};
use sha2::{Digest, Sha256};

fn sha256_hex(data: &str) -> String {
    let mut h = Sha256::new();
    h.update(data.as_bytes());
    hex::encode(h.finalize())
}

fn tx(id: &str, from: &str, to: &str, amount: &str, timestamp: i64, signature: &str) -> Transaction {
    Transaction {
        id: id.to_string(),
        from: from.to_string(),
        to: to.to_string(),
        amount: amount.to_string(),
        timestamp,
        signature: signature.to_string(),
    }
}

fn block(nonce: u64, transactions: Vec<Transaction>) -> Block {
    Block {
        index: 1,
        timestamp: 1700000000000,
        transactions,
        previous_hash: "GENESIS".to_string(),
        hash: String::new(),
        nonce,
        miner: "miner".to_string(),
    }
}

#[test]
fn new_chain_has_only_genesis() {
    let bc = Blockchain::new();
    assert_eq!(bc.chain.len(), 1);
    let g = &bc.chain[0];
    assert_eq!(g.index, 0);
    assert_eq!(g.timestamp, 0);
    assert!(g.transactions.is_empty());
    assert_eq!(g.previous_hash, "0".repeat(64));
    assert_eq!(g.hash, "GENESIS");
    assert_eq!(g.nonce, 0);
    assert_eq!(g.miner, "GENESIS");
    assert!(bc.pending_transactions.is_empty());
    assert_eq!(bc.difficulty, 3);
    assert_eq!(bc.mining_reward, "50.0");
    assert!(bc.is_valid());
    assert_eq!(bc.latest_block().hash, "GENESIS");
}

#[test]
fn genesis_hash_covers_index_time_json_previous_and_nonce() {
    let bc = Blockchain::new();
    let expected = sha256_hex(&format!("00[]{}0", "0".repeat(64)));
    assert_eq!(bc.chain[0].compute_hash(), expected);
}

#[test]
fn block_hash_covers_transactions_as_json() {
    let b = block(
        17,
        vec![
            tx("t1", "alice", "bob", "5.0", 42, "sig"),
            tx("t\"2", "bob", "carol\n", "1e21", -3, "COINBASE"),
        ],
    );
    let json = format!(
        "{}{}",
        "[{\"id\":\"t1\",\"from\":\"alice\",\"to\":\"bob\",\"amount\":5.0,\"timestamp\":42,\"signature\":\"sig\"},",
        "{\"id\":\"t\\\"2\",\"from\":\"bob\",\"to\":\"carol\\n\",\"amount\":1e21,\"timestamp\":-3,\"signature\":\"COINBASE\"}]"
    );
    let expected = sha256_hex(&format!("11700000000000{}GENESIS17", json));
    let h = b.compute_hash();
    assert_eq!(h, expected);
    assert_eq!(h.len(), 64);
}

#[test]
fn hash_changes_with_the_nonce() {
    let a = block(0, vec![]);
    let b = block(1, vec![]);
    assert_ne!(a.compute_hash(), b.compute_hash());
    assert_eq!(a.compute_hash(), sha256_hex("11700000000000[]GENESIS0"));
}

#[test]
fn mining_finds_the_first_nonce_that_meets_the_difficulty() {
    let txs = vec![tx("t1", "alice", "bob", "5.0", 42, "sig")];
    let mined = Block::mine_at(1, 1700000000000, txs, "GENESIS".to_string(), "miner".to_string(), 2)
        .expect("a nonce exists");
    assert!(mined.hash.starts_with("00"));
    assert_eq!(mined.hash, mined.compute_hash());
    assert!(mined.is_valid_hash(2));
    for n in 0..mined.nonce {
        let mut other = mined.clone();
        other.nonce = n;
        assert!(!other.compute_hash().starts_with("00"));
    }
}

#[test]
fn difficulty_zero_takes_nonce_zero() {
    let mined = Block::mine_at(3, 5, vec![], "p".to_string(), "m".to_string(), 0).unwrap();
    assert_eq!(mined.nonce, 0);
    assert_eq!(mined.hash, mined.compute_hash());
    assert!(mined.is_valid_hash(0));
}

#[test]
fn block_new_mines_with_current_time() {
    let b = Block::new(1, vec![], "GENESIS".to_string(), "m".to_string(), 1).unwrap();
    assert!(b.timestamp > 0);
    assert!(b.is_valid_hash(1));
    assert_eq!(b.index, 1);
    assert_eq!(b.previous_hash, "GENESIS");
}

#[test]
fn tampered_block_fails_hash_check() {
    let mut mined = Block::mine_at(1, 9, vec![tx("t", "a", "b", "1.0", 1, "s")], "p".to_string(), "m".to_string(), 1)
        .unwrap();
    assert!(mined.is_valid_hash(1));
    mined.transactions[0].amount = "100.0".to_string();
    assert!(!mined.is_valid_hash(1));
}

#[test]
fn valid_hash_needs_enough_zeros() {
    let mut b = block(0, vec![]);
    b.hash = b.compute_hash();
    let zeros = b.hash.chars().take_while(|c| *c == '0').count();
    assert!(b.is_valid_hash(zeros));
    assert!(!b.is_valid_hash(zeros + 1));
    assert!(!b.is_valid_hash(65));
    b.hash = "GENESIS".to_string();
    assert!(!b.is_valid_hash(0));
}

#[test]
fn mining_the_mempool_appends_a_linked_block_and_pays_the_miner() {
    let mut bc = Blockchain::new();
    bc.add_transaction(tx("t1", "alice", "bob", "5.0", 1, "sig"));
    assert_eq!(bc.pending_transactions.len(), 1);
    assert_eq!(bc.chain.len(), 1);
    let b = bc.mine_pending_transactions("miner").expect("mined");
    assert_eq!(bc.chain.len(), 2);
    assert!(bc.pending_transactions.is_empty());
    assert_eq!(b.index, 1);
    assert_eq!(b.previous_hash, "GENESIS");
    assert_eq!(b.miner, "miner");
    assert!(b.is_valid_hash(3));
    assert_eq!(b.transactions.len(), 2);
    assert_eq!(b.transactions[0].id, "t1");
    let reward = &b.transactions[1];
    assert_eq!(reward.from, "COINBASE");
    assert_eq!(reward.to, "miner");
    assert_eq!(reward.amount, "50.0");
    assert_eq!(reward.signature, "COINBASE");
    assert_eq!(reward.id.len(), 36);
    assert_eq!(bc.latest_block().hash, b.hash);
    assert!(bc.is_valid());
    let b2 = bc.mine_pending_transactions("miner").unwrap();
    assert_eq!(b2.index, 2);
    assert_eq!(b2.previous_hash, b.hash);
    assert_eq!(b2.transactions.len(), 1);
    assert!(bc.is_valid());
}

#[test]
fn mempool_keeps_order() {
    let mut bc = Blockchain::new();
    bc.add_transaction(tx("a", "x", "y", "1.0", 1, "s"));
    bc.add_transaction(tx("b", "x", "y", "2.0", 2, "s"));
    let ids: Vec<&str> = bc.pending_transactions.iter().map(|t| t.id.as_str()).collect();
    assert_eq!(ids, vec!["a", "b"]);
    assert_eq!(bc.chain.len(), 1);
}

#[test]
fn ledger_entries_follow_the_chain() {
    let mut bc = Blockchain::new();
    bc.mine_pending_transactions("alice").unwrap();
    bc.add_transaction(tx("t", "alice", "bob", "10.0", 1, "sig"));
    bc.add_transaction(tx("self", "carol", "carol", "2.5", 2, "sig"));
    bc.mine_pending_transactions("alice").unwrap();
    let alice: Vec<(bool, String)> =
        bc.balance_entries("alice").into_iter().map(|e| (e.credit, e.amount)).collect();
    assert_eq!(
        alice,
        vec![(true, "50.0".to_string()), (false, "10.0".to_string()), (true, "50.0".to_string())]
    );
    let bob: Vec<(bool, String)> =
        bc.balance_entries("bob").into_iter().map(|e| (e.credit, e.amount)).collect();
    assert_eq!(bob, vec![(true, "10.0".to_string())]);
    let carol: Vec<(bool, String)> =
        bc.balance_entries("carol").into_iter().map(|e| (e.credit, e.amount)).collect();
    assert_eq!(carol, vec![(true, "2.5".to_string()), (false, "2.5".to_string())]);
    assert!(bc.balance_entries("nobody").is_empty());
}

#[test]
fn mining_credits_the_miner_last() {
    let mut bc = Blockchain::new();
    bc.add_transaction(tx("t", "miner", "bob", "3.0", 1, "sig"));
    bc.mine_pending_transactions("miner").unwrap();
    let entries = bc.balance_entries("miner");
    let last = entries.last().unwrap();
    assert!(last.credit);
    assert_eq!(last.amount, "50.0");
}

#[test]
fn coinbase_as_miner_gets_credit_then_debit() {
    let mut bc = Blockchain::new();
    bc.mine_pending_transactions("COINBASE").unwrap();
    let entries = bc.balance_entries("COINBASE");
    assert_eq!(entries.len(), 2);
    assert!(entries[0].credit);
    assert!(!entries[1].credit);
}

#[test]
fn tampering_with_a_confirmed_block_breaks_the_chain() {
    let mut bc = Blockchain::new();
    bc.add_transaction(tx("t1", "alice", "bob", "5.0", 1, "sig"));
    bc.mine_pending_transactions("miner").unwrap();
    bc.mine_pending_transactions("miner").unwrap();
    assert!(bc.is_valid());
    bc.chain[1].transactions[0].amount = "500.0".to_string();
    assert!(!bc.is_valid());
    let mut relinked = Blockchain::new();
    relinked.mine_pending_transactions("miner").unwrap();
    relinked.mine_pending_transactions("miner").unwrap();
    relinked.chain[2].previous_hash = "0".repeat(64);
    assert!(!relinked.is_valid());
}

#[test]
fn only_blocks_after_genesis_are_checked() {
    let mut bc = Blockchain::new();
    bc.chain[0].hash = "anything".to_string();
    assert!(bc.is_valid());
}

#[test]
fn hash_does_not_cover_the_miner() {
    let mut a = block(5, vec![tx("t", "a", "b", "1.0", 1, "s")]);
    let h = a.compute_hash();
    a.miner = "someone else".to_string();
    a.hash = "stored".to_string();
    assert_eq!(a.compute_hash(), h);
    a.index = 2;
    assert_ne!(a.compute_hash(), h);
}

#[test]
fn block_new_with_difficulty_zero() {
    let b = Block::new(7, vec![], "abc".to_string(), "m".to_string(), 0).unwrap();
    assert_eq!(b.nonce, 0);
    assert_eq!(b.index, 7);
    assert!(b.transactions.is_empty());
    assert_eq!(b.previous_hash, "abc");
    assert_eq!(b.miner, "m");
    assert_eq!(b.hash, b.compute_hash());
    assert_eq!(b.hash.len(), 64);
    assert!(b.hash.chars().all(|c| c.is_ascii_digit() || ('a'..='f').contains(&c)));
}
