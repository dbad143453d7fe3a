use vstd::prelude::*;

use crate::node_id::ValidNodeId;
use crate::nonzero::NonZeroU64;

verus! {

/// Parameters needed to initialize (or reinitialize) a raft node.
#[derive(Debug, Clone, Copy)]
pub struct InitialConfig {
    /// Identity of the local raft, must be unique in the cluster.
    pub id: ValidNodeId,
    /// Number of nodes in the cluster. Valid node ids are in the range [1, cluster_size]
    pub cluster_size: u64,
    /// Minimum number of ticks before a follower attempts to become a leader.
    pub min_ticks_before_election: NonZeroU64,
    /// Maximum number of ticks before a follower attempts to become a leader.
    pub max_ticks_before_election: NonZeroU64,
    /// Number of ticks between leader-sent heartbeats.
    pub ticks_between_heartbeats: NonZeroU64,
    /// Last applied index. Only is `Some` when restarting a raft.
    pub last_applied_idx: Option<NonZeroU64>,
}

impl InitialConfig {
    /// A node can be run with these parameters: its id is one of the
    /// cluster's, the cluster fits in memory, and there is an election timeout
    /// to draw.
    pub open spec fn wf(&self) -> bool {
        &&& 1 <= self.id@ <= self.cluster_size <= usize::MAX
        &&& self.min_ticks_before_election@ < self.max_ticks_before_election@
    }

    /// Whether a node can be run with these parameters.
    pub fn is_wf(&self) -> (r: bool)
        ensures
            r <==> self.wf(),
    {
        self.id.get() <= self.cluster_size && self.cluster_size <= usize::MAX as u64
            && self.min_ticks_before_election.get() < self.max_ticks_before_election.get()
    }

    /// The same parameters for the node `id`.
    pub fn with_id(self, id: ValidNodeId) -> (r: Self)
        ensures
            r == (InitialConfig { id, ..self }),
    {
        let mut config = self;
        config.id = id;
        config
    }
}

} // verus!
