//! A node that is driven by messages from a network, and by its operator.
use vstd::prelude::*;

use std::sync::mpsc::{Receiver, Sender};

use crate::communication::{Channel, Record, Sent};
use crate::logger::{role_name, role_name_of};
use crate::network::{answer_view, answered, dequeue, enqueue, fed_by, handed, read_by, share_sender};
use crate::node::Node;
use crate::node_id::INVALID_ID;
use crate::proto::{ProtoMessage, ProtoView};
use crate::rng::RngProvider;
use crate::storage::Storage;

verus! {

/// What an operator can change about a running node.
#[derive(Debug, Clone, Copy, PartialEq, Eq, Structural)]
pub enum ConfigChange {
    Shutdown(bool),
    /// Pauses or resumes the target, or every node if there is none.
    Pause { target_id: Option<u64>, paused: bool },
    /// The time between ticks, in milliseconds.
    TickInterval(u64),
}

/// Events emitted by the driver for tracking the node's internal state and visualization.
#[derive(Debug, Clone)]
pub enum DriverEvent {
    MessageSent(ProtoMessage),
    MessageReceived(ProtoMessage),
    StateChanged { id: u64, term: u64, voted_for: u64, leader_id: u64, role: String },
    Shutdown { id: u64, shutdown: bool },
    Paused { id: u64, paused: bool },
    TickInterval { id: u64, interval_ms: u64 },
}

/// Custom channel for the Raft node driven by TCP sockets.
///
/// Sends outgoing messages to an internal queue which will be processed by a separate sender
/// task. This is necessary so we can have async writes without forcing the `Channel` trait to be
/// async.
pub struct DriverChannel {
    writer_tx: Sender<ProtoMessage>,
    history: Record,
}

/// The message without an addressee, which makes it one for everyone.
pub open spec fn for_everyone(msg: ProtoView) -> ProtoView {
    ProtoView { to: INVALID_ID, ..msg }
}

/// What is written for what was handed to the channel.
pub open spec fn written_for(history: Seq<Sent>) -> Seq<ProtoView> {
    Seq::new(
        history.len(),
        |i: int|
            match history[i] {
                Sent::To(msg) => msg,
                Sent::All(msg) => for_everyone(msg),
            },
    )
}

impl DriverChannel {
    /// What has gone to the queue so far.
    pub closed spec fn written(&self) -> Seq<ProtoView> {
        handed(self.writer_tx)
    }

    /// Which queue this channel writes to.
    pub closed spec fn feeds(&self) -> int {
        fed_by(self.writer_tx)
    }

    /// A channel that writes to the queue of `writer_tx`.
    pub fn new(writer_tx: Sender<ProtoMessage>) -> (r: DriverChannel)
        ensures
            r.history() == Seq::<Sent>::empty(),
            r.written() == handed(writer_tx),
            r.feeds() == fed_by(writer_tx),
            r.is_faithful(),
    {
        let r = DriverChannel { writer_tx, history: Record::new() };
        assert(handed(writer_tx) + written_for(r.history@) =~= handed(writer_tx));
        r
    }
}

impl DriverChannel {
    proof fn lemma_stays_faithful(self, after: Self, sent: Sent, out: ProtoView)
        requires
            after.history@ == self.history@.push(sent),
            handed(after.writer_tx) == handed(self.writer_tx).push(out),
            out == match sent {
                Sent::To(msg) => msg,
                Sent::All(msg) => for_everyone(msg),
            },
        ensures
            self.is_faithful() ==> after.is_faithful(),
    {
        if self.is_faithful() {
            let before = choose|before: Seq<ProtoView>| #[trigger]
                (before + written_for(self.history@)) == handed(self.writer_tx);
            assert(before + written_for(after.history@) =~= handed(after.writer_tx));
        }
    }
}

impl Clone for DriverChannel {
    /// Another handle on the same queue.
    fn clone(&self) -> (r: Self)
        ensures
            r.history() == Seq::<Sent>::empty(),
            r.written() == Seq::<ProtoView>::empty(),
            r.feeds() == self.feeds(),
            r.is_faithful(),
    {
        let r = DriverChannel {
            writer_tx: share_sender(&self.writer_tx),
            history: Record::new(),
        };
        assert(Seq::<ProtoView>::empty() + written_for(r.history@) =~= handed(r.writer_tx));
        r
    }
}

impl Channel for DriverChannel {
    closed spec fn history(&self) -> Seq<Sent> {
        self.history@
    }

    open spec fn reaches(&self, id: u64) -> bool {
        id != INVALID_ID
    }

    /// Nobody observes this channel.
    open spec fn kept(&self) -> Seq<ProtoView> {
        Seq::empty()
    }

    open spec fn keeps(&self, sent: Sent) -> Seq<ProtoView> {
        Seq::empty()
    }

    /// Nothing comes in through this channel.
    open spec fn answers(&self) -> Seq<Option<ProtoView>> {
        Seq::empty()
    }

    /// The queue that is written to.
    open spec fn wiring(&self) -> Seq<int> {
        seq![self.feeds()]
    }

    /// What was written is what was handed to this channel, that for all
    /// without an addressee, after what else went through its sender before.
    closed spec fn is_faithful(&self) -> bool {
        exists|before: Seq<ProtoView>| #[trigger]
            (before + written_for(self.history@)) == handed(self.writer_tx)
    }

    fn send(&mut self, msg: ProtoMessage)
        ensures
            final(self).written() == old(self).written().push(msg@),
            final(self).feeds() == old(self).feeds(),
    {
        let ghost before = *self;
        let ghost sent = Sent::To(msg@);
        let ghost out = msg@;
        let _ = enqueue(&mut self.writer_tx, msg);
        self.history.add(Ghost(sent));
        proof {
            before.lemma_stays_faithful(*self, sent, out);
        }
    }

    /// A message without addressee is for everyone.
    fn broadcast(&mut self, msg: ProtoMessage)
        ensures
            final(self).written() == old(self).written().push(for_everyone(msg@)),
            final(self).feeds() == old(self).feeds(),
    {
        let ghost before = *self;
        let ghost sent = Sent::All(msg@);
        let mut msg = msg;
        msg.to = INVALID_ID;
        let ghost out = msg@;
        let _ = enqueue(&mut self.writer_tx, msg);
        self.history.add(Ghost(sent));
        proof {
            before.lemma_stays_faithful(*self, sent, out);
        }
    }

    fn can_reach(&self, id: u64) -> bool {
        id != INVALID_ID
    }
}

/// The peers that a message addressed to `to` goes to: all if it is addressed
/// to nobody, and else the addressee.
pub open spec fn recipients_of(to: u64, peers: Seq<u64>) -> Seq<u64> {
    if to == INVALID_ID {
        peers
    } else if peers.contains(to) {
        seq![to]
    } else {
        Seq::empty()
    }
}

/// The peers that a message addressed to `to` goes to.
pub fn recipients(to: u64, peers: &Vec<u64>) -> (r: Vec<u64>)
    ensures
        r@ == recipients_of(to, peers@),
{
    let mut out: Vec<u64> = Vec::new();
    let mut i: usize = 0;
    if to == INVALID_ID {
        while i < peers.len()
            invariant
                i <= peers@.len(),
                out@ == peers@.take(i as int),
            decreases peers@.len() - i,
        {
            out.push(peers[i]);
            i = i + 1;
            assert(peers@.take(i as int) =~= peers@.take(i - 1).push(peers@[i - 1]));
        }
        assert(peers@.take(i as int) =~= peers@);
    } else {
        while i < peers.len()
            invariant
                i <= peers@.len(),
                to != INVALID_ID,
                out@.len() == 0,
                forall|j: int| 0 <= j < i ==> peers@[j] != to,
            decreases peers@.len() - i,
        {
            if peers[i] == to {
                out.push(to);
                assert(peers@.contains(to));
                assert(out@ =~= seq![to]);
                return out;
            }
            i = i + 1;
        }
        assert(out@ =~= Seq::<u64>::empty());
    }
    out
}

/// A node and the queue of what comes in for it.
pub struct RaftDriver<S: Storage, Rng: RngProvider> {
    pub node: Node<S, DriverChannel, Rng>,
    /// Incoming `ProtoMessages` from other nodes
    pub tcp_rx: Receiver<ProtoMessage>,
    pub paused: bool,
    pub shutdown: bool,
    /// The time between ticks, in milliseconds.
    pub tick_interval: u64,
}

impl<S: Storage, Rng: RngProvider> RaftDriver<S, Rng> {
    /// Drives `node` with what comes in through `tcp_rx`.
    pub fn new(node: Node<S, DriverChannel, Rng>, tcp_rx: Receiver<ProtoMessage>, tick_interval: u64) -> (r:
        Self)
        ensures
            r.node == node,
            r.tcp_rx == tcp_rx,
            !r.paused,
            !r.shutdown,
            r.tick_interval == tick_interval,
    {
        RaftDriver { node, tcp_rx, paused: false, shutdown: false, tick_interval }
    }

    /// The driver is what it was, apart from the node.
    pub open spec fn same_but_node(&self, before: &Self) -> bool {
        &&& self.tcp_rx == before.tcp_rx
        &&& self.paused == before.paused
        &&& self.shutdown == before.shutdown
        &&& self.tick_interval == before.tick_interval
    }

    /// Does what the operator wants, if it is meant for this node, and tells
    /// what was done.
    pub fn apply(&mut self, change: ConfigChange) -> (r: Option<DriverEvent>)
        ensures
            final(self).node == old(self).node,
            final(self).tcp_rx == old(self).tcp_rx,
            match change {
                ConfigChange::Shutdown(shutdown) => {
                    &&& final(self).shutdown == shutdown
                    &&& final(self).paused == old(self).paused
                    &&& final(self).tick_interval == old(self).tick_interval
                    &&& r == Some(DriverEvent::Shutdown { id: old(self).node.id@, shutdown })
                },
                ConfigChange::Pause { target_id, paused } => {
                    let meant = target_id is None || target_id == Some(old(self).node.id@);
                    &&& final(self).shutdown == old(self).shutdown
                    &&& final(self).paused == if meant {
                        paused
                    } else {
                        old(self).paused
                    }
                    &&& final(self).tick_interval == old(self).tick_interval
                    &&& r == if meant {
                        Some(DriverEvent::Paused { id: old(self).node.id@, paused })
                    } else {
                        None
                    }
                },
                ConfigChange::TickInterval(interval_ms) => {
                    &&& final(self).shutdown == old(self).shutdown
                    &&& final(self).paused == old(self).paused
                    &&& final(self).tick_interval == interval_ms
                    &&& r == Some(DriverEvent::TickInterval { id: old(self).node.id@, interval_ms })
                },
            },
    {
        let id: u64 = self.node.id.get();
        match change {
            ConfigChange::Shutdown(shutdown) => {
                self.shutdown = shutdown;
                Some(DriverEvent::Shutdown { id, shutdown })
            },
            ConfigChange::Pause { target_id, paused } => {
                let meant = match target_id {
                    Some(target) => target == id,
                    None => true,
                };
                if meant {
                    self.paused = paused;
                    Some(DriverEvent::Paused { id, paused })
                } else {
                    None
                }
            },
            ConfigChange::TickInterval(interval_ms) => {
                self.tick_interval = interval_ms;
                Some(DriverEvent::TickInterval { id, interval_ms })
            },
        }
    }

    /// Lets a tick pass, unless the node is paused or shut down, and says
    /// whether it did.
    pub fn tick(&mut self) -> (r: bool)
        requires
            old(self).node.wf(),
            old(self).node@.can_tick(),
        ensures
            final(self).node.wf(),
            final(self).same_but_node(old(self)),
            r <==> !old(self).paused && !old(self).shutdown,
            !r ==> final(self).node == old(self).node,
            r ==> final(self).node.became(
                &old(self).node,
                old(self).node@.tick(final(self).node.election_timeout),
            ),
    {
        if self.paused || self.shutdown {
            false
        } else {
            self.node.tick();
            true
        }
    }

    /// Lets the node handle `msg`, if it can, and tells that it came in.
    pub fn receive(&mut self, msg: ProtoMessage) -> (r: DriverEvent)
        requires
            old(self).node.wf(),
        ensures
            final(self).node.wf(),
            final(self).same_but_node(old(self)),
            r matches DriverEvent::MessageReceived(m) && m@ == msg@,
            old(self).node.accepts(msg@.to_message()) ==> final(self).node.became(
                &old(self).node,
                old(self).node@.step(msg@.to_message(), final(self).node.election_timeout),
            ),
            !old(self).node.accepts(msg@.to_message()) ==> final(self).node == old(self).node,
    {
        let copy = msg.clone();
        let _ = self.node.receive(msg);
        DriverEvent::MessageReceived(copy)
    }

    /// Lets the node handle the next message that came in, where there is
    /// one, and tells of it. The queue is asked once, but not at all while the
    /// node is paused or shut down.
    pub fn poll(&mut self) -> (r: Option<DriverEvent>)
        requires
            old(self).node.wf(),
        ensures
            final(self).node.wf(),
            *final(self) == (RaftDriver {
                node: final(self).node,
                tcp_rx: final(self).tcp_rx,
                ..*old(self)
            }),
            read_by(final(self).tcp_rx) == read_by(old(self).tcp_rx),
            old(self).paused || old(self).shutdown ==> r is None && *final(self) == *old(self),
            !old(self).paused && !old(self).shutdown ==> {
                &&& answered(final(self).tcp_rx).len() == answered(old(self).tcp_rx).len() + 1
                &&& answered(final(self).tcp_rx).drop_last() == answered(old(self).tcp_rx)
                &&& match answered(final(self).tcp_rx).last() {
                    None => r is None && final(self).node == old(self).node,
                    Some(p) => {
                        &&& r matches Some(DriverEvent::MessageReceived(m)) && m@ == p
                        &&& if old(self).node.accepts(p.to_message()) {
                            final(self).node.became(
                                &old(self).node,
                                old(self).node@.step(
                                    p.to_message(),
                                    final(self).node.election_timeout,
                                ),
                            )
                        } else {
                            final(self).node == old(self).node
                        }
                    },
                }
            },
    {
        if self.paused || self.shutdown {
            return None;
        }
        let ghost before = answered(self.tcp_rx);
        let answer = dequeue(&mut self.tcp_rx);
        assert(answered(self.tcp_rx).drop_last() =~= before);
        assert(answered(self.tcp_rx).last() == answer_view(answer));
        match answer {
            Some(msg) => Some(self.receive(msg)),
            None => None,
        }
    }

    /// What the node has become, for those who watch it.
    pub fn state_event(&self) -> (r: DriverEvent)
        ensures
            r matches DriverEvent::StateChanged { id, term, voted_for, leader_id, role } && {
                &&& id == self.node@.id
                &&& term == self.node@.term
                &&& voted_for == self.node@.voted_for
                &&& leader_id == self.node@.leader_id
                &&& role@ == role_name_of(self.node@.role)
            },
    {
        DriverEvent::StateChanged {
            id: self.node.id.get(),
            term: self.node.term,
            voted_for: self.node.voted_for.to_u64(),
            leader_id: self.node.leader_id.to_u64(),
            role: role_name(&self.node.role).to_owned(),
        }
    }
}

/// A message for everyone goes to all peers in their order, one for a peer to
/// that one alone, and one for a stranger to nobody.
pub proof fn law_messages_reach_those_they_are_for(to: u64, peers: Seq<u64>)
    ensures
        to == 0 ==> recipients_of(to, peers) == peers,
        to != 0 && peers.contains(to) ==> recipients_of(to, peers) == seq![to],
        to != 0 && !peers.contains(to) ==> recipients_of(to, peers).len() == 0,
{
}

/// What is written for what was handed over is the message itself, and for what
/// is for all the message without an addressee, in the same order.
pub proof fn law_what_is_handed_over_is_written(history: Seq<Sent>, i: int)
    requires
        0 <= i < history.len(),
    ensures
        written_for(history).len() == history.len(),
        history[i] matches Sent::To(msg) ==> written_for(history)[i] == msg,
        history[i] matches Sent::All(msg) ==> {
            let w = written_for(history)[i];
            &&& w.to == 0
            &&& w.from == msg.from
            &&& w.msg_type == msg.msg_type
            &&& w.term == msg.term
            &&& w.commit == msg.commit
            &&& w.last_term == msg.last_term
            &&& w.last_index == msg.last_index
            &&& w.entries == msg.entries
            &&& w.voted_for == msg.voted_for
            &&& w.success == msg.success
        },
{
}

/// The network can be asked to reach every node that has an id.
pub proof fn law_every_id_is_reached(c: DriverChannel, id: u64)
    ensures
        c.reaches(id) <==> id != 0,
{
}

} // verus!
