//! A local, single-user encrypted credential store.
//!
//! The crate keeps a service-name-to-secret mapping in memory, encrypts it
//! under a key derived from a master password, and frames the result as a
//! self-contained byte container.  All persistence and interactive I/O is
//! left to the caller: the library only computes.

pub mod aead;
pub mod cli;
pub mod container;
pub mod errors;
pub mod kdf;
pub mod text;
pub mod vault;
pub mod wipe;
pub mod wire;
