use vstd::prelude::*;

use crate::node_id::ValidNodeId;
use crate::node_map::NodeMap;
use crate::progress::FollowerProgress;
use crate::quorum::{first_votes, Quorum, Vote};

verus! {

/// What a node currently is to its cluster.
#[derive(Debug, PartialEq, Clone)]
pub enum Role {
    Follower(FollowerState),
    Candidate(CandidateState),
    Leader(LeaderState),
}

/// The state of a follower.
#[derive(Debug, PartialEq, Eq, Clone, Copy, Structural)]
pub struct FollowerState {
    pub promotable: bool,
    pub ticks_since_last_msg: u64,
}

/// The state of a candidate.
#[derive(Debug, PartialEq, Clone)]
pub struct CandidateState {
    pub ticks_since_election_start: u64,
    pub votes: Quorum,
}

/// The state of a leader.
#[derive(Debug, PartialEq, Clone)]
pub struct LeaderState {
    pub ticks_since_last_heartbeat: u64,
    /// Per-follower progress tracking, indexed by node ID.
    pub follower_progress: NodeMap<FollowerProgress>,
}

/// A role as a mathematical value: votes and progress of node `i + 1` stand at
/// position `i`.
#[verifier::ext_equal]
pub enum RoleView {
    Follower { promotable: bool, ticks: u64 },
    Candidate { ticks: u64, votes: Seq<Vote> },
    Leader { ticks: u64, progress: Seq<FollowerProgress> },
}

impl View for Role {
    type V = RoleView;

    open spec fn view(&self) -> RoleView {
        match *self {
            Role::Follower(s) => RoleView::Follower {
                promotable: s.promotable,
                ticks: s.ticks_since_last_msg,
            },
            Role::Candidate(s) => RoleView::Candidate {
                ticks: s.ticks_since_election_start,
                votes: s.votes@,
            },
            Role::Leader(s) => RoleView::Leader {
                ticks: s.ticks_since_last_heartbeat,
                progress: s.follower_progress@,
            },
        }
    }
}

impl RoleView {
    /// The role of a node that just became a follower.
    pub open spec fn follower() -> RoleView {
        RoleView::Follower { promotable: true, ticks: 0 }
    }

    /// The role of node `id` as it starts to campaign.
    pub open spec fn candidate(cluster_size: u64, id: u64) -> RoleView {
        RoleView::Candidate { ticks: 0, votes: first_votes(cluster_size, id) }
    }

    /// The role of a node that just won its election with a log that ends at `last_index`.
    pub open spec fn leader(cluster_size: u64, last_index: u64) -> RoleView {
        RoleView::Leader {
            ticks: 0,
            progress: Seq::new(cluster_size as nat, |i: int| FollowerProgress::fresh(last_index)),
        }
    }

    /// The role fits a cluster of `cluster_size` nodes and its tick count can
    /// go on.
    pub open spec fn wf(self, cluster_size: u64) -> bool {
        match self {
            RoleView::Follower { promotable, ticks } => ticks < u64::MAX,
            RoleView::Candidate { ticks, votes } => ticks < u64::MAX && votes.len() == cluster_size,
            RoleView::Leader { ticks, progress } => ticks < u64::MAX && progress.len()
                == cluster_size,
        }
    }
}

impl Default for FollowerState {
    fn default() -> (r: Self)
        ensures
            r == (FollowerState { promotable: true, ticks_since_last_msg: 0 }),
    {
        Self { promotable: true, ticks_since_last_msg: 0 }
    }
}

impl FollowerState {
    pub fn election_timeout_passed(&self, timeout: u64) -> (r: bool)
        ensures
            r <==> self.ticks_since_last_msg >= timeout,
    {
        self.ticks_since_last_msg >= timeout
    }
}

impl CandidateState {
    pub fn new(cluster_size: u64, id: u64) -> (r: Self)
        requires
            1 <= id <= cluster_size <= usize::MAX,
        ensures
            r.ticks_since_election_start == 0,
            r.votes@ == first_votes(cluster_size, id),
    {
        Self { ticks_since_election_start: 0, votes: Quorum::new(cluster_size, id) }
    }
}

impl Role {
    /// The role of a node that just became a follower, whatever it was.
    pub fn become_follower() -> (r: Role)
        ensures
            r@ == RoleView::follower(),
    {
        Role::Follower(FollowerState::default())
    }

    /// The role of node `id` as it starts to campaign, as a follower or a
    /// candidate does.
    pub fn become_candidate(&self, cluster_size: u64, id: u64) -> (r: Role)
        requires
            self !is Leader,
            1 <= id <= cluster_size <= usize::MAX,
        ensures
            r@ == RoleView::candidate(cluster_size, id),
    {
        Role::Candidate(CandidateState::new(cluster_size, id))
    }

    /// The role of node `self_id` as it wins its election, as only a
    /// candidate does.
    pub fn become_leader(&self, cluster_size: u64, self_id: ValidNodeId, last_index: u64) -> (r:
        Role)
        requires
            self is Candidate,
            self_id@ <= cluster_size <= usize::MAX,
            last_index < u64::MAX,
        ensures
            r@ == RoleView::leader(cluster_size, last_index),
    {
        let progress = FollowerProgress::new(last_index);
        let follower_progress = NodeMap::new(cluster_size, self_id, progress);
        assert(follower_progress@ =~= Seq::new(
            cluster_size as nat,
            |i: int| FollowerProgress::fresh(last_index),
        ));
        Role::Leader(LeaderState { ticks_since_last_heartbeat: 0, follower_progress })
    }
}

} // verus!
