use mini_web3::api::{
    accept_transaction, accept_transaction_at, mine_block_for, transfer_message_of, ApiError,
    MineRequest, SendTxRequest,
};
use mini_web3::blockchain::Blockchain;
use mini_web3::wallet::Wallet;

fn signed_request(w: &Wallet, to: &str, amount: &str, display: &str) -> SendTxRequest {
    let msg = format!("{}{}{}", w.address, to, display);
    SendTxRequest {
        from: w.address.clone(),
        to: to.to_string(),
        amount: amount.to_string(),
        amount_display: display.to_string(),
        public_key: w.public_key.clone(),
        signature: w.sign(&msg).unwrap(),
    }
}

#[test]
fn message_runs_sender_receiver_and_amount_together() {
    let req = SendTxRequest {
        from: "alice".to_string(),
        to: "bob".to_string(),
        amount: "5.0".to_string(),
        amount_display: "5".to_string(),
        public_key: String::new(),
        signature: String::new(),
    };
    assert_eq!(transfer_message_of(&req), "alicebob5");
}

#[test]
fn signed_transfer_enters_the_mempool() {
    let w = Wallet::new();
    let mut bc = Blockchain::new();
    let req = signed_request(&w, "bob", "10.0", "10");
    let tx = accept_transaction_at(&mut bc, &req, "id-1".to_string(), 77).unwrap();
    assert_eq!(tx.id, "id-1");
    assert_eq!(tx.from, w.address);
    assert_eq!(tx.to, "bob");
    assert_eq!(tx.amount, "10.0");
    assert_eq!(tx.timestamp, 77);
    assert_eq!(tx.signature, req.signature);
    assert_eq!(bc.pending_transactions.len(), 1);
    assert_eq!(bc.pending_transactions[0].id, "id-1");
}

#[test]
fn transfer_with_fresh_id_and_time() {
    let w = Wallet::new();
    let mut bc = Blockchain::new();
    let req = signed_request(&w, "bob", "0.5", "0.5");
    let tx = accept_transaction(&mut bc, &req).unwrap();
    assert_eq!(tx.id.len(), 36);
    assert!(tx.timestamp > 0);
    assert_eq!(bc.pending_transactions.len(), 1);
}

#[test]
fn badly_signed_transfer_is_refused() {
    let w = Wallet::new();
    let mut bc = Blockchain::new();
    let mut req = signed_request(&w, "bob", "10.0", "10");
    req.amount_display = "100".to_string();
    assert_eq!(
        accept_transaction_at(&mut bc, &req, "id".to_string(), 1).unwrap_err(),
        ApiError::InvalidSignature
    );
    assert!(bc.pending_transactions.is_empty());
    let mut other = signed_request(&w, "bob", "10.0", "10");
    other.public_key = Wallet::new().public_key;
    assert_eq!(accept_transaction(&mut bc, &other).unwrap_err(), ApiError::InvalidSignature);
    assert!(bc.pending_transactions.is_empty());
}

#[test]
fn mining_request_needs_a_miner() {
    let mut bc = Blockchain::new();
    let err = mine_block_for(&mut bc, &MineRequest { miner_address: String::new() }).unwrap_err();
    assert_eq!(err, ApiError::MinerAddressRequired);
    assert_eq!(err.message(), "miner_address is required");
    assert_eq!(bc.chain.len(), 1);
}

#[test]
fn mining_request_mines_the_mempool() {
    let w = Wallet::new();
    let mut bc = Blockchain::new();
    let req = signed_request(&w, "bob", "10.0", "10");
    accept_transaction(&mut bc, &req).unwrap();
    let b = mine_block_for(&mut bc, &MineRequest { miner_address: "m".to_string() }).unwrap();
    assert_eq!(b.transactions.len(), 2);
    assert_eq!(b.transactions[1].to, "m");
    assert_eq!(bc.chain.len(), 2);
    assert!(bc.pending_transactions.is_empty());
    assert!(bc.is_valid());
}

#[test]
fn refusal_texts() {
    assert_eq!(ApiError::InvalidSignature.message(), "Invalid signature – transaction rejected");
    assert_eq!(ApiError::MinerAddressRequired.message(), "miner_address is required");
    assert_eq!(ApiError::NoNonceFound.message(), "no nonce meets the difficulty");
}
