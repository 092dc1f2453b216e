//! The core of a blockchain node: content-addressed ledger types and their
//! canonical encoding, a state store of unspent State Objects, transaction
//! validation, atomic block application, deterministic proposer selection,
//! a bounded mempool and a small stack virtual machine. A lexer and parser
//! for a small "let" language sit beside it.

pub mod bytes;
pub mod crypto;
pub mod ledger;
pub mod codec;
pub mod state_db;
pub mod validator;
pub mod effects;
pub mod chain;
pub mod consensus;
pub mod mempool;
pub mod node;
pub mod bytecode;
pub mod zvm;
pub mod text;
pub mod token;
pub mod lexer;
pub mod ast;
pub mod parser;
