//! A whole cluster as a state machine: its nodes, and every message that was
//! ever sent. A message may be lost, delayed, reordered or delivered any number
//! of times; a node may stand still for as long as it likes.
use vstd::prelude::*;

use crate::communication::Outgoing;
use crate::model::{Effect, NodeModel};
use crate::proto::{EntryView, MessageView};
use crate::quorum::{vote_flags, Vote};

verus! {

/// What is recorded of the leader of a term.
#[verifier::ext_equal]
pub struct Reign {
    /// Who was elected.
    pub leader: u64,
    /// Which nodes voted for it, node `i + 1` at position `i`.
    pub voters: Seq<bool>,
    /// Its log as it was elected.
    pub start: Seq<EntryView>,
    /// Its log as it last was while it led.
    pub log: Seq<EntryView>,
}

/// A cluster and its network. The last two fields record what has happened;
/// no node ever sees them.
#[verifier::ext_equal]
pub struct World {
    /// Node `i + 1` at position `i`.
    pub nodes: Seq<NodeModel>,
    /// All that was ever sent.
    pub net: Set<Outgoing>,
    /// The leader of each term that had one.
    pub reigns: Map<u64, Reign>,
    /// The log with which a candidate campaigned, by term and candidate.
    pub campaigns: Map<(u64, u64), Seq<EntryView>>,
}

/// Something that happens to one node of the cluster, given by its position.
pub enum Event {
    /// A tick passes.
    Tick { node: int, timeout: u64 },
    /// The node is told to campaign.
    Campaign { node: int, timeout: u64 },
    /// A message that was sent reaches the node.
    Deliver { node: int, message: Outgoing, timeout: u64 },
    /// A client asks the node to record `data`.
    Propose { node: int, data: Seq<u8> },
    /// A user submits `data` to the node.
    Submit { node: int, data: Seq<u8> },
}

/// A message that was sent may reach node `id`.
pub open spec fn addressed(message: Outgoing, id: u64) -> bool {
    match message {
        Outgoing::To(m) => m.to() == id,
        Outgoing::All(m) => m.from() != id,
    }
}

impl Event {
    pub open spec fn node(self) -> int {
        match self {
            Event::Tick { node, timeout } => node,
            Event::Campaign { node, timeout } => node,
            Event::Deliver { node, message, timeout } => node,
            Event::Propose { node, data } => node,
            Event::Submit { node, data } => node,
        }
    }

    /// What comes of the node `s` by this event.
    pub open spec fn effect(self, s: NodeModel) -> Effect {
        match self {
            Event::Tick { node, timeout } => s.tick(timeout),
            Event::Campaign { node, timeout } => s.start_campaign(timeout),
            Event::Deliver { node, message, timeout } => s.step(message.message(), timeout),
            Event::Propose { node, data } => s.propose(data),
            Event::Submit { node, data } => s.submit(data),
        }
    }

    /// The votes that the candidate `s` has once this event happened.
    pub open spec fn ballots(self, s: NodeModel) -> Seq<Vote> {
        match self {
            Event::Deliver { node, message, timeout } => match message.message() {
                MessageView::RequestVoteResponse(m) => s.role->votes.update(
                    m.from - 1,
                    if m.voted_for == s.id {
                        Vote::For
                    } else {
                        Vote::Against
                    },
                ),
                _ => s.role->votes,
            },
            _ => s.role->votes,
        }
    }
}

impl World {
    /// The cluster as it starts: every node follows nobody, with an empty log,
    /// and nothing was sent.
    pub open spec fn is_initial(self) -> bool {
        &&& self.nodes.len() >= 1
        &&& forall|i: int|
            0 <= i < self.nodes.len() ==> {
                let s = #[trigger] self.nodes[i];
                &&& s.wf()
                &&& s.id == i + 1
                &&& s.cluster_size == self.nodes.len()
                &&& s == NodeModel::initial(
                    s.id,
                    s.cluster_size,
                    s.min_timeout,
                    s.max_timeout,
                    s.heartbeat_interval,
                    Seq::empty(),
                    s.election_timeout,
                )
            }
        &&& self.net == Set::<Outgoing>::empty()
        &&& self.reigns == Map::<u64, Reign>::empty()
        &&& self.campaigns == Map::<(u64, u64), Seq<EntryView>>::empty()
    }

    /// The event can happen.
    pub open spec fn enabled(self, e: Event) -> bool {
        &&& 0 <= e.node() < self.nodes.len()
        &&& match e {
            Event::Tick { node, timeout } => self.nodes[node].can_tick(),
            Event::Campaign { node, timeout } => self.nodes[node].can_step(
                MessageView::StartCampaign,
            ),
            Event::Deliver { node, message, timeout } => {
                &&& self.net.contains(message)
                &&& addressed(message, self.nodes[node].id)
                &&& self.nodes[node].can_step(message.message())
            },
            Event::Propose { node, data } => self.nodes[node].can_propose(),
            Event::Submit { node, data } => self.nodes[node].can_propose(),
        }
    }

    /// The reigns once the node `s` became `next` by `e`.
    pub open spec fn next_reigns(self, e: Event, s: NodeModel, next: NodeModel) -> Map<u64, Reign> {
        if next.role !is Leader {
            self.reigns
        } else if s.role is Leader {
            self.reigns.insert(
                next.term,
                Reign { log: next.log, ..self.reigns[next.term] },
            )
        } else {
            self.reigns.insert(
                next.term,
                Reign {
                    leader: next.id,
                    voters: vote_flags(e.ballots(s), Vote::For),
                    start: s.log,
                    log: next.log,
                },
            )
        }
    }

    /// The campaigns once the node `s` became `next`.
    pub open spec fn next_campaigns(self, s: NodeModel, next: NodeModel) -> Map<
        (u64, u64),
        Seq<EntryView>,
    > {
        if next.role is Candidate && next.term != s.term {
            self.campaigns.insert((next.term, next.id), next.log)
        } else {
            self.campaigns
        }
    }

    /// The cluster once the event happened.
    pub open spec fn next(self, e: Event) -> World {
        let s = self.nodes[e.node()];
        let effect = e.effect(s);
        World {
            nodes: self.nodes.update(e.node(), effect.node),
            net: self.net.union(effect.sent.to_set()),
            reigns: self.next_reigns(e, s, effect.node),
            campaigns: self.next_campaigns(s, effect.node),
        }
    }

    /// The cluster once all events happened, one after the other.
    pub open spec fn after(self, events: Seq<Event>) -> World
        decreases events.len(),
    {
        if events.len() == 0 {
            self
        } else {
            self.after(events.drop_last()).next(events.last())
        }
    }

    /// Each event can happen once those before it did.
    pub open spec fn allows(self, events: Seq<Event>) -> bool
        decreases events.len(),
    {
        events.len() == 0 || {
            &&& self.allows(events.drop_last())
            &&& self.after(events.drop_last()).enabled(events.last())
        }
    }
}

} // verus!
