//! An encrypted credential vault: password-based key derivation, an
//! authenticated envelope around a canonical binary payload, and a credential
//! collection whose identifiers stay pairwise distinct.
pub mod primitives;
pub mod credential;
pub mod codec;
pub mod vault;
pub mod envelope;
pub mod cli;
