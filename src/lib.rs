//! Token-ring replica placement: a sorted token ring with cyclic traversal,
//! and the simple and rack-aware replica selection policies over it.

pub mod distinct;
pub mod ring;
pub mod replication;
pub mod nts;
pub mod laws;
pub mod startup;
