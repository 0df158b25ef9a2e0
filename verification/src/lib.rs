//! Verified core of a tool that imports public SSH keys published by hosting
//! providers into a local user's `authorized_keys` file on a stored schedule.
//!
//! The crate is organised around four pieces: parsing key material
//! ([`keys`]), building provider URLs and merging fetched key lists
//! ([`sources`]), computing the append-only reconciliation of a target file
//! ([`reconcile`]), and the persistent schedule store with its validation
//! rules ([`store`], [`schedule`]). The daemon's pure decisions — which
//! jobs a schedule list yields and when a reload is due — are verified in
//! [`daemon`]; the surrounding process loop, network and file I/O belong to
//! an unverified front end that hands the library plain values.

pub mod daemon;
pub mod keys;
pub mod reconcile;
pub mod schedule;
pub mod sources;
pub mod store;
