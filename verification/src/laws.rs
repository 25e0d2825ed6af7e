//! What holds of the parts together.

pub mod calls;
pub mod checks;
pub mod cluster;
pub mod conflicts;
pub mod effects;
pub mod locks;
pub mod messages;
pub mod metadata;
pub mod names;
pub mod operations;
pub mod orders;
pub mod outcomes;
pub mod planning;
pub mod queues;
pub mod records;
pub mod routing;
pub mod runs;
pub mod sequence;
pub mod shards;
pub mod snapshot;
pub mod speculation;
pub mod spread;
pub mod tree;
