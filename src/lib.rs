//! Name-service resolution core: a label codec that packs short strings into
//! little-endian 128-bit words, a hierarchical name hasher, a transcoder for the
//! ledger's struct-literal text, and a decoder for the records it carries.

pub mod error;
mod text;
pub mod codec;
pub mod transcode;
pub mod record;
pub mod hash;
pub mod walk;
pub mod query;
pub mod rows;
