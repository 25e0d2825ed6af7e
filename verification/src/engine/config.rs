//! How a shard is set up.

use crate::collections::OrdMap;
use crate::model::ShardId;
use vstd::prelude::*;

verus! {

/// How a shard runs a batch.
#[derive(Clone, Copy, Debug, PartialEq, Eq, Structural)]
pub enum SchedulerKind {
    CalvinLocking,
    SccOnline,
    Aria,
}

impl Default for SchedulerKind {
    fn default() -> (r: Self)
        ensures
            r == SchedulerKind::CalvinLocking,
    {
        SchedulerKind::CalvinLocking
    }
}

#[derive(Debug)]
pub struct ShardConfig {
    pub node_id: String,
    pub shard_id: ShardId,
    pub shard_count: u64,
    pub peer_endpoints: OrdMap<ShardId, String>,
    pub scheduler: SchedulerKind,
}

} // verus!
