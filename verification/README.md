# mini_web3

A small proof-of-work blockchain node: Ed25519 wallets, signed transactions with
a mempool, mining with a coinbase reward, and chain integrity checks, served over
HTTP.

- `src/` is the verified library (Verus):
  - `encoding` — decimal numbers, hexadecimal (with its round trip), JSON strings;
  - `crypto` — SHA-256, Base58 and Ed25519, called through their crates;
  - `wallet` — key pairs, addresses, signing and signature checks;
  - `blockchain` — transactions, blocks and their hashes, proof of work, the
    chain, its validity and the movements of coins on an address;
  - `api` — what the HTTP endpoints decide.
- `app/` is the node program: the Actix-Web handlers, the JSON copies of the
  library's types, the balance as a sum of `f64` amounts, and a demo.
- `tests/` runs the library on concrete values.

Amounts are floating-point numbers in the API. The library keeps each as the
JSON text of the number, which is what a block hash covers; the app turns
numbers into that text and back.
