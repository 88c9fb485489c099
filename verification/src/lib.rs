//! A small proof-of-work blockchain node: blocks, signed transactions, a mempool,
//! mining with a coinbase reward, Ed25519 wallets and chain integrity checks.
//!
//! `blockchain` holds the chain and its rules, `wallet` the keys and signatures,
//! `api` what the node's endpoints decide; `encoding` has the byte and text
//! formats the logic is built on, `crypto` the hashing and signature primitives.
use vstd::prelude::*;

pub mod api;
pub mod blockchain;
pub mod crypto;
pub mod encoding;
pub mod wallet;

verus! {

} // verus!
