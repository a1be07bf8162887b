//! A minimal asset registry: uniquely identified records with descriptive
//! fields and a current owner, indexed both by record key and by owner, with
//! a snapshot codec that persists the whole state across restarts.
//!
//! The registry keeps two structures in lockstep: a primary store from key to
//! record, and a derived owner index from identity to the keys that identity
//! holds. Every mutating operation and every snapshot round trip preserves
//! their mutual consistency.

pub mod record;
pub mod registry;
pub mod codec;
