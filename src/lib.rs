//! A partition ring: keys are hashed into a fixed table of `2^partition_power`
//! slots, each slot is owned by a registered node, and a key resolves to an
//! ordered list of distinct replica nodes.

pub mod hashing;
pub mod table;
pub mod replicas;
pub mod ring;
