//! Verified core of the Celestium ledger.
//!
//! The canonical byte encoding of every entity of the chain ([`serialize`],
//! [`user_id`], [`block_id`], [`transaction`], [`transaction_block`],
//! [`block`], [`blockchain`]), keys and signatures over secp256k1
//! ([`keys`], [`crypto`]), the ledger that a chain builds up ([`user`],
//! [`ledger`]), the search for a magic ([`miner`]), the wallet
//! ([`wallet`]), and the wire formats of the pixel canvas ([`pixel`],
//! [`history`], [`protocol`]).

pub mod block;
pub mod block_hash;
pub mod block_id;
pub mod blockchain;
pub mod bytes;
pub mod crypto;
pub mod dust;
pub mod error;
pub mod history;
pub mod keys;
pub mod ledger;
pub mod miner;
pub mod noise;
pub mod pixel;
pub mod protocol;
pub mod serialize;
pub mod text;
pub mod transaction;
pub mod transaction_block;
pub mod user;
pub mod user_id;
pub mod wallet;
pub mod wide;
