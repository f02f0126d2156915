//! Section membership, key agreement and message authentication for a
//! peer-to-peer network that partitions a 256-bit XOR name space into
//! sections, each governed by an elder group holding a threshold key.
//!
//! The crate covers name-space partitioning and prefix lookup
//! ([`prefix_map`]), section authority state ([`section`]), threshold
//! signature aggregation ([`aggregator`]), distributed key generation
//! bookkeeping ([`dkg`]), the relocation protocol ([`relocation`]), the
//! join/admission protocol ([`join`]), the routing message envelope and its
//! wire bytes ([`messages`], [`codec`]), and the section-gated serving of
//! stored chunks ([`chunks`], [`data_manager`]). Threshold cryptography and
//! the digest are outside implementations behind the trusted declarations
//! in [`crypto`]; the durable store is an outside collaborator whose
//! protocol-visible failures are shaped in [`dbs`].

pub mod aggregator;
pub mod agreement;
pub mod chunks;
pub mod codec;
pub mod crypto;
pub mod data_manager;
pub mod dbs;
pub mod dkg;
pub mod error;
pub mod join;
pub mod messages;
pub mod network;
pub mod name;
pub mod prefix;
pub mod prefix_map;
pub mod relocation;
pub mod section;
pub mod signed;
