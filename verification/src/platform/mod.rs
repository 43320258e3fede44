//! Platform services: the topology of the machine, the choice among workers, and the
//! tablebase prober.

pub mod lists;
pub mod numa;
pub mod partitions;
pub mod policies;
pub mod pool;
pub mod spreads;
pub mod syzygy;
pub mod threads;
pub mod votes;
