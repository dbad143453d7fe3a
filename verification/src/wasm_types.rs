//! What is shown of a simulated cluster.
use vstd::prelude::*;

use crate::cluster::ClusterMessage;

verus! {

/// What is shown of a node.
#[derive(Debug, Clone, PartialEq, Eq)]
pub struct NodeState {
    pub id: u64,
    /// "Follower", "Candidate", "Leader" or "Crashed"
    pub role: String,
    pub term: u64,
    pub leader_id: u64,
    pub voted_for: u64,
    /// Whether the node is paused/killed
    pub paused: bool,
    pub last_log_index: u64,
    pub committed_index: u64,
    /// How many messages wait for the node while the cluster is paused
    pub pending_count: u64,
}

impl NodeState {
    pub fn new(
        id: u64,
        role: String,
        term: u64,
        leader_id: u64,
        voted_for: u64,
        paused: bool,
        last_log_index: u64,
        committed_index: u64,
        pending_count: u64,
    ) -> (r: Self)
        ensures
            r == (NodeState {
                id,
                role,
                term,
                leader_id,
                voted_for,
                paused,
                last_log_index,
                committed_index,
                pending_count,
            }),
    {
        Self {
            id,
            role,
            term,
            leader_id,
            voted_for,
            paused,
            last_log_index,
            committed_index,
            pending_count,
        }
    }

    pub fn id(&self) -> (r: u64)
        ensures
            r == self.id,
    {
        self.id
    }

    pub fn role(&self) -> (r: String)
        ensures
            r@ == self.role@,
    {
        self.role.clone()
    }

    pub fn term(&self) -> (r: u64)
        ensures
            r == self.term,
    {
        self.term
    }

    pub fn leader_id(&self) -> (r: u64)
        ensures
            r == self.leader_id,
    {
        self.leader_id
    }

    pub fn voted_for(&self) -> (r: u64)
        ensures
            r == self.voted_for,
    {
        self.voted_for
    }

    pub fn paused(&self) -> (r: bool)
        ensures
            r == self.paused,
    {
        self.paused
    }

    pub fn last_log_index(&self) -> (r: u64)
        ensures
            r == self.last_log_index,
    {
        self.last_log_index
    }

    pub fn committed_index(&self) -> (r: u64)
        ensures
            r == self.committed_index,
    {
        self.committed_index
    }

    pub fn pending_count(&self) -> (r: u64)
        ensures
            r == self.pending_count,
    {
        self.pending_count
    }
}

/// What is shown of an entry of a log.
#[derive(Debug, Clone, PartialEq, Eq)]
pub struct RaftLogEntry {
    pub index: u64,
    pub term: u64,
    pub data: String,
    pub is_committed: bool,
}

impl RaftLogEntry {
    pub fn new(index: u64, term: u64, data: String, is_committed: bool) -> (r: Self)
        ensures
            r == (RaftLogEntry { index, term, data, is_committed }),
    {
        Self { index, term, data, is_committed }
    }
}

/// Complete cluster state snapshot
#[derive(Debug, Clone, PartialEq, Eq)]
pub struct ClusterState {
    pub nodes: Vec<NodeState>,
    pub messages: Vec<ClusterMessage>,
    pub tick_rate_ms: u64,
}

impl ClusterState {
    pub fn new(nodes: Vec<NodeState>, messages: Vec<ClusterMessage>, tick_rate_ms: u64) -> (r: Self)
        ensures
            r == (ClusterState { nodes, messages, tick_rate_ms }),
    {
        Self { nodes, messages, tick_rate_ms }
    }

    pub fn nodes(&self) -> (r: &Vec<NodeState>)
        ensures
            *r == self.nodes,
    {
        &self.nodes
    }

    pub fn messages(&self) -> (r: &Vec<ClusterMessage>)
        ensures
            *r == self.messages,
    {
        &self.messages
    }

    pub fn tick_rate_ms(&self) -> (r: u64)
        ensures
            r == self.tick_rate_ms,
    {
        self.tick_rate_ms
    }
}

/// A message as it is shown, as a mathematical value.
#[verifier::ext_equal]
pub struct ShownMessage {
    pub from: u64,
    pub to: u64,
    pub msg_type: Seq<char>,
    pub term: u64,
    pub timestamp: u64,
}

impl View for ClusterMessage {
    type V = ShownMessage;

    open spec fn view(&self) -> ShownMessage {
        ShownMessage {
            from: self.from,
            to: self.to,
            msg_type: self.msg_type@,
            term: self.term,
            timestamp: self.timestamp,
        }
    }
}

/// The messages as mathematical values.
pub open spec fn shown_view(messages: Seq<ClusterMessage>) -> Seq<ShownMessage> {
    Seq::new(messages.len(), |i: int| messages[i]@)
}

} // verus!
