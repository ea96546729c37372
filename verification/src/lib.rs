//! Streaming multipart upload engine.
//!
//! The crate holds the decisions of an upload that turns a serial byte stream
//! into numbered parts, sends them under a bounded number of tokens, and
//! completes or aborts the remote session. Reading the input and talking to the
//! storage backend are left to the caller, which performs the actions this
//! crate asks for and reports back what happened.

pub mod assemble;
pub mod chunker;
pub mod config;
pub mod engine;
pub mod ledger;
pub mod part;
pub mod pool;
pub mod session;
pub mod size;
pub mod upload;
