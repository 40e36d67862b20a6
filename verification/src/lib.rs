//! Audits a filesystem tree for cryptographic keypair material and
//! cross-references each discovered public key against remote ledger
//! endpoints.
//!
//! The library holds the verified core: bounded-depth directory discovery,
//! keypair-file identification, deduplication by public key identity,
//! endpoint pool filtering, and balance report assembly. Filesystem and
//! network access stay with the embedding program, which hands the library
//! plain values (paths as strings, parse outcomes, probe outcomes, query
//! outcomes) and drives the discovery state machine.

pub mod config;
pub mod dedup;
pub mod key;
pub mod pool;
pub mod report;
pub mod scan;
pub mod walk;
