use vstd::prelude::*;

use std::collections::HashSet;

use crate::communication::{all_sent, lemma_kept_of_same, Channel, Sent};
use crate::config::InitialConfig;
use crate::model::NodeModel;
use crate::network::{
    answer_view, answered, fed_by, got_through, lemma_wiring_tells, new_queue, protos_view,
    read_by, sent_towards, FaultRate, FaultyChannel, TestChannel, NO_FAULT,
};
use crate::node::Node;
use crate::node_id::{NodeId, ValidNodeId};
use crate::node_map::NodeMap;
use crate::nonzero::NonZeroU64;
use crate::progress::FollowerProgress;
use crate::proto::{EntryView, ProtoMessage, ProtoView};
use crate::quorum::count_set;
use crate::rng::{DefaultRng, RngProvider};
use crate::role::{LeaderState, Role, RoleView};
use crate::storage::{MemStorage, Storage};
use crate::world::World;

verus! {

broadcast use vstd::std_specs::hash::group_hash_axioms;

/// A node of a simulated cluster.
pub type TestNode<Rng> = Node<MemStorage, TestChannel<Rng>, Rng>;

/// Something that happened to a simulated cluster.
#[derive(Debug, Clone, PartialEq, Eq)]
pub enum ClusterEvent {
    NodeStateChanged { node_id: u64 },
    MessageSent { from: u64, to: u64, msg_type: String },
    NodePaused { node_id: u64 },
    NodeResumed { node_id: u64 },
}

/// A message as it is shown to an observer.
#[derive(Debug, Clone, PartialEq, Eq)]
pub struct ClusterMessage {
    pub from: u64,
    pub to: u64,
    pub msg_type: String,
    pub term: u64,
    pub timestamp: u64,
}

impl ClusterMessage {
    pub fn new(from: u64, to: u64, msg_type: String, term: u64, timestamp: u64) -> (r: Self)
        ensures
            r == (ClusterMessage { from, to, msg_type, term, timestamp }),
    {
        Self { from, to, msg_type, term, timestamp }
    }

    pub fn from(&self) -> (r: u64)
        ensures
            r == self.from,
    {
        self.from
    }

    pub fn to(&self) -> (r: u64)
        ensures
            r == self.to,
    {
        self.to
    }

    pub fn msg_type(&self) -> (r: String)
        ensures
            r@ == self.msg_type@,
    {
        self.msg_type.clone()
    }

    pub fn term(&self) -> (r: u64)
        ensures
            r == self.term,
    {
        self.term
    }

    pub fn timestamp(&self) -> (r: u64)
        ensures
            r == self.timestamp,
    {
        self.timestamp
    }
}

/// A simulated cluster.
pub struct Cluster<Rng: RngProvider> {
    pub nodes: Vec<TestNode<Rng>>,
    /// Track paused/killed nodes
    pub paused_nodes: HashSet<u64>,
    /// Buffer for UI messages
    pub message_buffer: Vec<ClusterMessage>,
    /// What happened and was not yet told to the listeners
    pub events: Vec<ClusterEvent>,
    /// Current tick rate in milliseconds
    pub tick_rate_ms: u64,
    pub rng: Rng,
}

/// The number of nodes before the first one that has the id `id`.
pub open spec fn position<Rng: RngProvider>(nodes: Seq<TestNode<Rng>>, id: u64) -> nat
    decreases nodes.len(),
{
    if nodes.len() == 0 || nodes[0].id@ == id {
        0
    } else {
        1 + position(nodes.drop_first(), id)
    }
}

proof fn lemma_position<Rng: RngProvider>(nodes: Seq<TestNode<Rng>>, id: u64, k: int)
    requires
        0 <= k <= nodes.len(),
        forall|j: int| 0 <= j < k ==> (#[trigger] nodes[j]).id@ != id,
        k == nodes.len() || nodes[k].id@ == id,
    ensures
        position(nodes, id) == k,
    decreases nodes.len(),
{
    if k > 0 {
        let rest = nodes.drop_first();
        assert forall|j: int| 0 <= j < k - 1 implies (#[trigger] rest[j]).id@ != id by {
            assert(nodes[j + 1].id@ != id);
        }
        lemma_position(rest, id, k - 1);
    }
}

/// The ids never go down from node to node.
pub open spec fn sorted_by_id<Rng: RngProvider>(nodes: Seq<TestNode<Rng>>) -> bool {
    forall|a: int, b: int|
        0 <= a <= b < nodes.len() ==> (#[trigger] nodes[a]).id@ <= (#[trigger] nodes[b]).id@
}

/// `after` is the node `before`, apart from its inbox.
pub open spec fn stayed<Rng: RngProvider>(before: TestNode<Rng>, after: TestNode<Rng>) -> bool {
    &&& after == (Node {
        channel: TestChannel { recv: after.channel.recv, ..before.channel },
        ..before
    })
    &&& read_by(after.channel.recv) == read_by(before.channel.recv)
}

/// `after` is what came of the node `before` by the message `p`: nothing if it
/// cannot be handled. Its inbox may have been asked for messages meanwhile.
pub open spec fn took<Rng: RngProvider>(
    before: TestNode<Rng>,
    after: TestNode<Rng>,
    p: ProtoView,
) -> bool {
    if before.accepts(p.to_message()) {
        after.moved(&before, before@.step(p.to_message(), after.election_timeout))
    } else {
        stayed(before, after)
    }
}

/// `after` is what came of the node `before` by what arrived for it, if
/// anything did.
pub open spec fn took_arrival<Rng: RngProvider>(
    before: TestNode<Rng>,
    after: TestNode<Rng>,
    arrival: Option<ProtoView>,
) -> bool {
    match arrival {
        Some(p) => took(before, after, p),
        None => stayed(before, after),
    }
}

/// `after` is what came of the node `before` when its inbox was asked once: it
/// took what the inbox gave.
pub open spec fn asked<Rng: RngProvider>(before: TestNode<Rng>, after: TestNode<Rng>) -> bool {
    &&& after.channel.answers().len() == before.channel.answers().len() + 1
    &&& after.channel.answers().drop_last() == before.channel.answers()
    &&& took_arrival(before, after, after.channel.answers().last())
}

/// `after` is what came of the node `before` by the message `p`, which is
/// discarded if it comes from a paused node.
pub open spec fn handled<Rng: RngProvider>(
    before: TestNode<Rng>,
    after: TestNode<Rng>,
    p: ProtoView,
    paused: Set<u64>,
) -> bool {
    if paused.contains(p.from) {
        stayed(before, after)
    } else {
        took(before, after, p)
    }
}

/// `after` is what came of the node `before` by all of `inbox`, one after the
/// other. `trace` gives the node as it was in between.
pub open spec fn handled_all<Rng: RngProvider>(
    before: TestNode<Rng>,
    after: TestNode<Rng>,
    inbox: Seq<ProtoView>,
    trace: Seq<TestNode<Rng>>,
    paused: Set<u64>,
) -> bool {
    &&& trace.len() == inbox.len() + 1
    &&& trace[0] == before
    &&& stayed(trace.last(), after)
    &&& forall|k: int|
        0 <= k < inbox.len() ==> handled(trace[k], trace[k + 1], #[trigger] inbox[k], paused)
}

/// The answers of an inbox that gave all of `messages`.
pub open spec fn given(messages: Seq<ProtoView>) -> Seq<Option<ProtoView>> {
    Seq::new(messages.len(), |i: int| Some(messages[i]))
}

/// An inbox was asked until it was empty, and gave `messages`: the last answer
/// is nothing. Only one that gives more than can be counted is left before.
pub open spec fn emptied(
    before: Seq<Option<ProtoView>>,
    after: Seq<Option<ProtoView>>,
    messages: Seq<ProtoView>,
) -> bool {
    ||| after == (before + given(messages)).push(None)
    ||| messages.len() == u64::MAX && after == before + given(messages)
}

/// `after` is what came of the node `before` when its inbox was emptied: it
/// handled all that was there, in order, but discarded what paused nodes sent.
pub open spec fn drained<Rng: RngProvider>(
    before: TestNode<Rng>,
    after: TestNode<Rng>,
    paused: Set<u64>,
) -> bool {
    exists|inbox: Seq<ProtoView>, trace: Seq<TestNode<Rng>>| #[trigger]
        handled_all(before, after, inbox, trace, paused) && emptied(
            before.channel.answers(),
            after.channel.answers(),
            inbox,
        )
}

/// `after` is what came of the node `before` by a tick.
pub open spec fn ticked<Rng: RngProvider>(before: TestNode<Rng>, after: TestNode<Rng>) -> bool {
    after.became(&before, before@.tick(after.election_timeout))
}

/// `after` is what came of the node `before` by a tick, unless it is paused.
pub open spec fn ticked_unless<Rng: RngProvider>(
    before: TestNode<Rng>,
    after: TestNode<Rng>,
    paused: Set<u64>,
) -> bool {
    if paused.contains(before.id@) {
        after == before
    } else {
        ticked(before, after)
    }
}

/// `after` is what came of the node `before` when its inbox was emptied,
/// unless it is paused.
pub open spec fn drained_unless<Rng: RngProvider>(
    before: TestNode<Rng>,
    after: TestNode<Rng>,
    paused: Set<u64>,
) -> bool {
    if paused.contains(before.id@) {
        after == before
    } else {
        drained(before, after, paused)
    }
}

/// The nodes `after` are what came of the nodes `before` by a tick of those
/// that are not paused.
pub open spec fn all_ticked<Rng: RngProvider>(
    before: Seq<TestNode<Rng>>,
    after: Seq<TestNode<Rng>>,
    paused: Set<u64>,
) -> bool {
    &&& after.len() == before.len()
    &&& forall|i: int|
        0 <= i < before.len() ==> ticked_unless(before[i], #[trigger] after[i], paused)
}

/// The nodes `after` are what came of the nodes `before` when those that are
/// not paused emptied their inboxes.
pub open spec fn all_drained<Rng: RngProvider>(
    before: Seq<TestNode<Rng>>,
    after: Seq<TestNode<Rng>>,
    paused: Set<u64>,
) -> bool {
    &&& after.len() == before.len()
    &&& forall|i: int|
        0 <= i < before.len() ==> drained_unless(before[i], #[trigger] after[i], paused)
}

/// Lets `node` handle `msg`, unless it comes from a paused node.
fn handle_one<Rng: RngProvider>(node: &mut TestNode<Rng>, msg: ProtoMessage, paused: &HashSet<u64>)
    requires
        old(node).wf(),
    ensures
        final(node).wf(),
        final(node).id == old(node).id,
        final(node).channel.wiring() == old(node).channel.wiring(),
        old(node).channel.is_faithful() ==> final(node).channel.is_faithful(),
        handled(*old(node), *final(node), msg@, paused@),
        final(node).channel.answers() == old(node).channel.answers(),
{
    if !paused.contains(&msg.from) {
        let _ = node.receive(msg);
    }
}

/// One more message was handled.
proof fn lemma_handled_more<Rng: RngProvider>(
    before: TestNode<Rng>,
    last: TestNode<Rng>,
    next: TestNode<Rng>,
    inbox: Seq<ProtoView>,
    trace: Seq<TestNode<Rng>>,
    p: ProtoView,
    paused: Set<u64>,
)
    requires
        handled_all(before, last, inbox, trace, paused),
        trace.last() == last || stayed(trace.last(), last),
        handled(last, next, p, paused),
    ensures
        handled_all(before, next, inbox.push(p), trace.push(next), paused),
{
    let more = inbox.push(p);
    let longer = trace.push(next);
    assert forall|k: int| 0 <= k < more.len() implies handled(
        longer[k],
        longer[k + 1],
        #[trigger] more[k],
        paused,
    ) by {
        if k < inbox.len() {
            assert(handled(trace[k], trace[k + 1], inbox[k], paused));
        } else {
            let t = trace.last();
            assert(longer[k] == t);
            assert(t@ == last@);
            assert(t.accepts(p.to_message()) == last.accepts(p.to_message()));
            if !paused.contains(p.from) && last.accepts(p.to_message()) {
                lemma_kept_of_same(
                    last.channel,
                    t.channel,
                    all_sent(last@.step(p.to_message(), next.election_timeout).sent),
                );
                assert forall|id: u64| #[trigger] next.channel.reaches(id) == t.channel.reaches(
                    id,
                ) by {
                    assert(next.channel.reaches(id) == last.channel.reaches(id));
                }
                assert forall|sent: Sent| #[trigger] next.channel.keeps(sent) == t.channel.keeps(
                    sent,
                ) by {
                    assert(next.channel.keeps(sent) == last.channel.keeps(sent));
                }
            }
        }
    }
}

/// Lets `node` handle all of `msgs`, one after the other, but discards those
/// that come from a paused node.
pub fn handle_all<Rng: RngProvider>(
    node: &mut TestNode<Rng>,
    msgs: Vec<ProtoMessage>,
    paused: &HashSet<u64>,
)
    requires
        old(node).wf(),
    ensures
        final(node).wf(),
        final(node).id == old(node).id,
        final(node).channel.answers() == old(node).channel.answers(),
        final(node).channel.wiring() == old(node).channel.wiring(),
        old(node).channel.is_faithful() ==> final(node).channel.is_faithful(),
        exists|trace: Seq<TestNode<Rng>>| #[trigger]
            handled_all(*old(node), *final(node), protos_view(msgs@), trace, paused@),
{
    let ghost before = *node;
    let ghost all = protos_view(msgs@);
    let ghost mut trace: Seq<TestNode<Rng>> = seq![before];
    assert(all.take(0) =~= Seq::<ProtoView>::empty());
    let mut i: usize = 0;
    while i < msgs.len()
        invariant
            i <= msgs@.len(),
            all == protos_view(msgs@),
            node.wf(),
            node.id == before.id,
            node.channel.answers() == before.channel.answers(),
            node.channel.wiring() == before.channel.wiring(),
            before.channel.is_faithful() ==> node.channel.is_faithful(),
            handled_all(before, *node, all.take(i as int), trace, paused@),
        decreases msgs@.len() - i,
    {
        let ghost last = *node;
        handle_one(node, msgs[i].clone(), paused);
        proof {
            lemma_handled_more(
                before,
                last,
                *node,
                all.take(i as int),
                trace,
                all[i as int],
                paused@,
            );
            trace = trace.push(*node);
            assert(all.take(i as int).push(all[i as int]) =~= all.take(i + 1));
        }
        i = i + 1;
    }
    assert(all.take(i as int) =~= all);
}

/// Handles all messages that have come in for `node`, except those of paused
/// nodes, which are discarded.
fn drain_inbox<Rng: RngProvider>(node: &mut TestNode<Rng>, paused: &HashSet<u64>)
    requires
        old(node).wf(),
    ensures
        final(node).wf(),
        final(node).id == old(node).id,
        final(node).channel.wiring() == old(node).channel.wiring(),
        old(node).channel.is_faithful() ==> final(node).channel.is_faithful(),
        drained(*old(node), *final(node), paused@),
{
    let ghost before = *node;
    let ghost first = node.channel.answers();
    let ghost mut inbox: Seq<ProtoView> = Seq::empty();
    let ghost mut trace: Seq<TestNode<Rng>> = seq![before];
    let mut budget: u64 = u64::MAX;
    let mut empty: bool = false;
    assert(first + given(inbox) =~= first);
    while budget > 0 && !empty
        invariant
            node.wf(),
            node.id == before.id,
            first == before.channel.answers(),
            node.channel.wiring() == before.channel.wiring(),
            before.channel.is_faithful() ==> node.channel.is_faithful(),
            inbox.len() <= u64::MAX - budget,
            !empty ==> inbox.len() == u64::MAX - budget,
            handled_all(before, *node, inbox, trace, paused@),
            node.channel.answers() == if empty {
                (first + given(inbox)).push(None)
            } else {
                first + given(inbox)
            },
        decreases budget,
    {
        let ghost last = *node;
        let answer = node.channel.try_recv();
        let ghost held = *node;
        proof {
            lemma_stayed_wf(last, held);
            assert(held.channel.wiring() =~= last.channel.wiring());
        }
        match answer {
            None => {
                empty = true;
            },
            Some(msg) => {
                let ghost p = msg@;
                handle_one(node, msg, paused);
                proof {
                    lemma_handled_more(before, held, *node, inbox, trace, p, paused@);
                    inbox = inbox.push(p);
                    trace = trace.push(*node);
                    assert(first + given(inbox) =~= (first + given(inbox.drop_last())).push(
                        Some(p),
                    ));
                    assert(inbox.drop_last() =~= inbox.take(inbox.len() - 1));
                }
            },
        }
        budget = budget - 1;
    }
    assert(emptied(first, node.channel.answers(), inbox));
}

/// Channels for a cluster of `size` nodes, each of which can send to all.
pub fn test_channels_from_cluster_size<Rng: RngProvider>(size: u64, drop_rate: FaultRate, rng: Rng) -> (r:
    Vec<TestChannel<Rng>>)
    requires
        size <= usize::MAX,
    ensures
        r@.len() == size,
        forall|i: int|
            0 <= i < size ==> {
                &&& (#[trigger] r@[i]).id == i
                &&& r@[i].history() == Seq::<Sent>::empty()
                &&& !r@[i].observing
                &&& r@[i].observed@.len() == 0
                &&& r@[i].channels@.len() == size
                &&& forall|j: int|
                    0 <= j < size ==> (#[trigger] r@[i].channels@[j]).drop_rate == drop_rate
                        && r@[i].channels@[j].passed() == Seq::<ProtoView>::empty()
                        && fed_by(r@[i].channels@[j].channel) == read_by(r@[j].recv)
                &&& r@[i].answers() == Seq::<Option<ProtoView>>::empty()
            },
{
    let mut senders: Vec<std::sync::mpsc::Sender<ProtoMessage>> = Vec::new();
    let mut receivers: Vec<std::sync::mpsc::Receiver<ProtoMessage>> = Vec::new();
    let mut i: u64 = 0;
    while i < size
        invariant
            i <= size,
            senders@.len() == i,
            receivers@.len() == i,
            forall|k: int|
                0 <= k < i ==> {
                    &&& fed_by(#[trigger] senders@[k]) == read_by(receivers@[k])
                    &&& answered(receivers@[k]) == Seq::<Option<ProtoView>>::empty()
                },
        decreases size - i,
    {
        let (sender, receiver) = new_queue();
        senders.push(sender);
        receivers.push(receiver);
        i = i + 1;
    }
    let ghost ends = receivers@;
    let mut out: Vec<TestChannel<Rng>> = Vec::new();
    let mut id: u64 = 0;
    while id < size
        invariant
            id <= size,
            size <= usize::MAX,
            senders@.len() == size,
            ends.len() == size,
            receivers@ == ends.skip(id as int),
            forall|k: int|
                0 <= k < size ==> {
                    &&& fed_by(#[trigger] senders@[k]) == read_by(ends[k])
                    &&& answered(ends[k]) == Seq::<Option<ProtoView>>::empty()
                },
            out@.len() == id,
            forall|i: int|
                0 <= i < id ==> {
                    &&& (#[trigger] out@[i]).id == i
                    &&& out@[i].history() == Seq::<Sent>::empty()
                    &&& !out@[i].observing
                    &&& out@[i].observed@.len() == 0
                    &&& out@[i].channels@.len() == size
                    &&& forall|j: int|
                        0 <= j < size ==> (#[trigger] out@[i].channels@[j]).drop_rate == drop_rate
                            && out@[i].channels@[j].passed() == Seq::<ProtoView>::empty()
                            && fed_by(out@[i].channels@[j].channel) == fed_by(senders@[j])
                    &&& out@[i].recv == ends[i]
                },
        decreases size - id,
    {
        let mut channels: Vec<FaultyChannel<Rng>> = Vec::new();
        let mut j: usize = 0;
        while j < senders.len()
            invariant
                j <= senders@.len(),
                channels@.len() == j,
                forall|k: int|
                    0 <= k < j ==> (#[trigger] channels@[k]).drop_rate == drop_rate
                        && channels@[k].passed() == Seq::<ProtoView>::empty()
                        && fed_by(channels@[k].channel) == fed_by(senders@[k]),
            decreases senders@.len() - j,
        {
            channels.push(FaultyChannel::new(&senders[j], drop_rate, rng.clone()));
            j = j + 1;
        }
        let recv = receivers.remove(0);
        assert(recv == ends[id as int]);
        assert(receivers@ =~= ends.skip(id + 1));
        out.push(TestChannel::new(id, channels, recv));
        id = id + 1;
    }
    assert forall|i: int| 0 <= i < size implies {
        &&& (#[trigger] out@[i]).answers() == Seq::<Option<ProtoView>>::empty()
        &&& forall|j: int|
            0 <= j < size ==> fed_by((#[trigger] out@[i].channels@[j]).channel) == read_by(
                out@[j].recv,
            )
    } by {
        assert(fed_by(senders@[i]) == read_by(ends[i]));
        assert forall|j: int| 0 <= j < size implies fed_by(
            (#[trigger] out@[i].channels@[j]).channel,
        ) == read_by(out@[j].recv) by {
            assert(fed_by(senders@[j]) == read_by(ends[j]));
            assert(out@[j].recv == ends[j]);
        }
    }
    out
}

/// The configuration of a cluster of `size` nodes, for its first node.
pub fn initial_config(size: u64) -> (r: InitialConfig)
    ensures
        r.id@ == 1,
        r.cluster_size == size,
        r.min_ticks_before_election@ == 10,
        r.max_ticks_before_election@ == 20,
        r.ticks_between_heartbeats@ == 1,
        r.last_applied_idx is None,
{
    InitialConfig {
        id: ValidNodeId::from_index(0),
        cluster_size: size,
        min_ticks_before_election: NonZeroU64::new(10).unwrap(),
        max_ticks_before_election: NonZeroU64::new(20).unwrap(),
        ticks_between_heartbeats: NonZeroU64::new(1).unwrap(),
        last_applied_idx: None,
    }
}

/// `node` is the node `id` of a cluster with this configuration, as it starts.
pub open spec fn starts_as<Rng: RngProvider>(node: TestNode<Rng>, id: int, config: InitialConfig) -> bool {
    &&& node.wf()
    &&& node.id@ == id
    &&& node@ == NodeModel::initial(
        id as u64,
        config.cluster_size,
        config.min_ticks_before_election@,
        config.max_ticks_before_election@,
        config.ticks_between_heartbeats@,
        Seq::<EntryView>::empty(),
        node.election_timeout,
    )
    &&& node@.min_timeout <= node.election_timeout < node@.max_timeout
    &&& node.config == (InitialConfig { id: node.id, ..config })
    &&& node.channel.id == id - 1
    &&& node.channel.history() == Seq::<Sent>::empty()
    &&& node.channel.channels@.len() == config.cluster_size
    &&& !node.channel.observing
    &&& node.channel.observed@.len() == 0
    &&& node.channel.answers() == Seq::<Option<ProtoView>>::empty()
}

/// The nodes stand where their channels say, and each node's channel to a node
/// feeds the queue that this node reads.
pub open spec fn connected<Rng: RngProvider>(nodes: Seq<TestNode<Rng>>) -> bool {
    &&& forall|i: int|
        0 <= i < nodes.len() ==> {
            &&& (#[trigger] nodes[i]).channel.id == i
            &&& nodes[i].channel.channels@.len() == nodes.len()
        }
    &&& forall|i: int, j: int|
        0 <= i < nodes.len() && 0 <= j < nodes.len() ==> fed_by(
            (#[trigger] nodes[i].channel.channels@[j]).channel,
        ) == read_by(nodes[j].channel.recv)
}

/// The nodes are connected, and nothing went through their channels yet.
pub open spec fn wired<Rng: RngProvider>(nodes: Seq<TestNode<Rng>>) -> bool {
    &&& connected(nodes)
    &&& forall|i: int, j: int|
        0 <= i < nodes.len() && 0 <= j < nodes.len() ==> (
        #[trigger] nodes[i].channel.channels@[j]).passed() == Seq::<ProtoView>::empty()
    &&& forall|i: int|
        0 <= i < nodes.len() ==> (#[trigger] nodes[i]).channel.history() == Seq::<Sent>::empty()
}

/// What has gone out through the channels agrees with what the nodes sent.
pub open spec fn all_faithful<Rng: RngProvider>(nodes: Seq<TestNode<Rng>>) -> bool {
    forall|i: int| 0 <= i < nodes.len() ==> (#[trigger] nodes[i]).channel.is_faithful()
}

/// The channels are set up as they were, and are as faithful.
pub open spec fn same_wiring<Rng: RngProvider>(
    before: Seq<TestNode<Rng>>,
    after: Seq<TestNode<Rng>>,
) -> bool {
    &&& after.len() == before.len()
    &&& forall|i: int|
        0 <= i < before.len() ==> {
            &&& (#[trigger] after[i]).channel.wiring() == before[i].channel.wiring()
            &&& before[i].channel.is_faithful() ==> after[i].channel.is_faithful()
        }
}

/// The wiring is kept: nodes whose channels are set up as they were are
/// connected if they were, lose as much as they did, and what goes out through
/// their channels still agrees with what they send.
pub proof fn law_wiring_is_kept<Rng: RngProvider>(
    before: Seq<TestNode<Rng>>,
    after: Seq<TestNode<Rng>>,
    rate: FaultRate,
)
    requires
        same_wiring(before, after),
    ensures
        connected(before) ==> connected(after),
        all_faithful(before) ==> all_faithful(after),
        forall|i: int|
            0 <= i < before.len() && sends_at(#[trigger] before[i], rate) ==> sends_at(
                after[i],
                rate,
            ),
{
    assert forall|i: int| 0 <= i < before.len() implies {
        let a = (#[trigger] after[i]).channel;
        let b = before[i].channel;
        &&& a.id == b.id
        &&& a.channels@.len() == b.channels@.len()
        &&& read_by(a.recv) == read_by(b.recv)
        &&& forall|j: int|
            0 <= j < a.channels@.len() ==> {
                &&& fed_by((#[trigger] a.channels@[j]).channel) == fed_by(b.channels@[j].channel)
                &&& a.channels@[j].drop_rate == b.channels@[j].drop_rate
            }
    } by {
        lemma_wiring_tells(after[i].channel, before[i].channel);
    }
    if connected(before) {
        assert forall|i: int, j: int| 0 <= i < after.len() && 0 <= j < after.len() implies fed_by(
            (#[trigger] after[i].channel.channels@[j]).channel,
        ) == read_by(after[j].channel.recv) by {
            assert(before[i].channel.id == i);
            assert(before[j].channel.id == j);
            assert(after[i].channel.id == before[i].channel.id);
            assert(after[j].channel.id == before[j].channel.id);
            assert(fed_by(before[i].channel.channels@[j].channel) == read_by(
                before[j].channel.recv,
            ));
        }
    }
    assert forall|i: int| 0 <= i < before.len() && sends_at(#[trigger] before[i], rate) implies
        sends_at(after[i], rate) by {
        assert(after[i].channel.id == before[i].channel.id);
    }
}

/// Where nothing went through the channels yet, they are faithful.
pub proof fn law_new_channels_are_faithful<Rng: RngProvider>(nodes: Seq<TestNode<Rng>>)
    requires
        wired(nodes),
    ensures
        all_faithful(nodes),
{
    assert forall|i: int| 0 <= i < nodes.len() implies (
    #[trigger] nodes[i]).channel.is_faithful() by {
        assert forall|j: int| 0 <= j < nodes[i].channel.channels@.len() implies got_through(
            (#[trigger] nodes[i].channel.channels@[j]).passed(),
            sent_towards(nodes[i].channel.history@, j, nodes[i].channel.id),
            nodes[i].channel.channels@[j].drop_rate,
        ) by {
            assert(nodes[i].channel.history() == Seq::<Sent>::empty());
        }
    }
}

/// At the highest rate each queue was passed exactly what its channel's
/// history sends towards it.
pub proof fn law_all_gets_through<Rng: RngProvider>(nodes: Seq<TestNode<Rng>>, i: int, j: int)
    requires
        connected(nodes),
        all_faithful(nodes),
        0 <= i < nodes.len(),
        0 <= j < nodes.len(),
        sends_at(nodes[i], FaultRate(NO_FAULT)),
    ensures
        nodes[i].channel.channels@[j].passed() == sent_towards(
            nodes[i].channel.history(),
            j,
            i as u64,
        ),
        fed_by(nodes[i].channel.channels@[j].channel) == read_by(nodes[j].channel.recv),
{
    assert(nodes[i].channel.is_faithful());
    assert(nodes[i].channel.id == i);
    let channel = nodes[i].channel.channels@[j];
    assert(channel.drop_rate == FaultRate(NO_FAULT));
}

/// `node` is the node `id` of a cluster of seven with the usual configuration,
/// as it starts.
pub open spec fn starts_usually<Rng: RngProvider>(node: TestNode<Rng>, id: int) -> bool {
    &&& node.wf()
    &&& node.id@ == id
    &&& node@ == NodeModel::initial(
        id as u64,
        7,
        10,
        20,
        1,
        Seq::<EntryView>::empty(),
        node.election_timeout,
    )
    &&& 10 <= node.election_timeout < 20
    &&& node.channel.id == id - 1
    &&& node.channel.channels@.len() == 7
    &&& node.channel.history() == Seq::<Sent>::empty()
    &&& node.channel.answers() == Seq::<Option<ProtoView>>::empty()
    &&& !node.channel.observing
}

/// The channels of `node` let messages through at `rate`.
pub open spec fn sends_at<Rng: RngProvider>(node: TestNode<Rng>, rate: FaultRate) -> bool {
    forall|j: int|
        0 <= j < node.channel.channels@.len() ==> (#[trigger] node.channel.channels@[j]).drop_rate
            == rate
}

/// Creates the nodes of a new cluster based on `config`
pub fn cluster_from_config<Rng: RngProvider>(config: InitialConfig, drop_rate: FaultRate, rng: &Rng) -> (r:
    Vec<TestNode<Rng>>)
    requires
        config.cluster_size <= usize::MAX,
        config.min_ticks_before_election@ < config.max_ticks_before_election@,
    ensures
        r@.len() == config.cluster_size,
        forall|i: int|
            0 <= i < r@.len() ==> starts_as(#[trigger] r@[i], i + 1, config) && sends_at(
                r@[i],
                drop_rate,
            ),
        wired(r@),
{
    let size: u64 = config.cluster_size;
    let mut channels = test_channels_from_cluster_size(size, drop_rate, rng.clone());
    let ghost all = channels@;
    let mut nodes: Vec<TestNode<Rng>> = Vec::new();
    let mut i: u64 = 0;
    while i < size
        invariant
            i <= size,
            size == config.cluster_size,
            size <= usize::MAX,
            config.min_ticks_before_election@ < config.max_ticks_before_election@,
            all.len() == size,
            channels@ == all.skip(i as int),
            forall|k: int|
                0 <= k < size ==> {
                    &&& (#[trigger] all[k]).id == k
                    &&& all[k].history() == Seq::<Sent>::empty()
                    &&& !all[k].observing
                    &&& all[k].observed@.len() == 0
                    &&& all[k].channels@.len() == size
                    &&& forall|j: int|
                        0 <= j < size ==> (#[trigger] all[k].channels@[j]).drop_rate == drop_rate
                            && all[k].channels@[j].passed() == Seq::<ProtoView>::empty()
                            && fed_by(all[k].channels@[j].channel) == read_by(all[j].recv)
                    &&& all[k].answers() == Seq::<Option<ProtoView>>::empty()
                },
            nodes@.len() == i,
            forall|k: int|
                0 <= k < i ==> starts_as(#[trigger] nodes@[k], k + 1, config) && sends_at(
                    nodes@[k],
                    drop_rate,
                ) && nodes@[k].channel == all[k],
        decreases size - i,
    {
        let channel = channels.remove(0);
        assert(channel == all[i as int]);
        assert(channels@ =~= all.skip(i + 1));
        let id = ValidNodeId::from_index(i as usize);
        let node = Node::new(id, MemStorage::new(), channel, rng.clone(), config.with_id(id));
        nodes.push(node);
        i = i + 1;
    }
    nodes
}

/// The nodes of a new cluster of seven, whose network loses nothing.
pub fn basic_cluster() -> (r: Vec<TestNode<DefaultRng>>)
    ensures
        r@.len() == 7,
        forall|i: int|
            0 <= i < 7 ==> starts_usually(#[trigger] r@[i], i + 1) && sends_at(
                r@[i],
                FaultRate(NO_FAULT),
            ),
        wired(r@),
{
    cluster_from_config(initial_config(7), FaultRate(NO_FAULT), &DefaultRng)
}

/// The nodes of a new cluster of seven, whose network delivers at the given rate.
pub fn basic_cluster_with_drop_rate(drop_rate: FaultRate) -> (r: Vec<TestNode<DefaultRng>>)
    ensures
        r@.len() == 7,
        forall|i: int|
            0 <= i < 7 ==> starts_usually(#[trigger] r@[i], i + 1) && sends_at(
                r@[i],
                drop_rate,
            ),
        wired(r@),
{
    cluster_from_config(initial_config(7), drop_rate, &DefaultRng)
}

impl Cluster<DefaultRng> {
    /// A cluster of seven nodes and a network that loses nothing.
    pub fn new() -> (r: Self)
        ensures
            r.is_fresh(),
            r.nodes@.len() == 7,
            forall|i: int|
                0 <= i < 7 ==> starts_usually(#[trigger] r.nodes@[i], i + 1) && sends_at(
                    r.nodes@[i],
                    FaultRate(NO_FAULT),
                ),
            wired(r.nodes@),
    {
        Self::from_drop_rate(FaultRate(NO_FAULT))
    }

    /// A cluster of seven nodes whose network delivers at the given rate.
    pub fn from_drop_rate(drop_rate: FaultRate) -> (r: Self)
        ensures
            r.is_fresh(),
            r.nodes@.len() == 7,
            forall|i: int|
                0 <= i < 7 ==> starts_usually(#[trigger] r.nodes@[i], i + 1) && sends_at(
                    r.nodes@[i],
                    drop_rate,
                ),
            wired(r.nodes@),
    {
        Self::from_config(Self::initial_config(7), drop_rate)
    }

    /// A new cluster with this configuration.
    pub fn from_config(config: InitialConfig, drop_rate: FaultRate) -> (r: Self)
        requires
            config.cluster_size <= usize::MAX,
            config.min_ticks_before_election@ < config.max_ticks_before_election@,
        ensures
            r.is_fresh(),
            r.nodes@.len() == config.cluster_size,
            forall|i: int|
                0 <= i < r.nodes@.len() ==> starts_as(#[trigger] r.nodes@[i], i + 1, config)
                    && sends_at(r.nodes@[i], drop_rate),
            wired(r.nodes@),
    {
        Self::from_config_with_rng(config, drop_rate, DefaultRng)
    }

    /// The configuration of a cluster of `size` nodes, for its first node.
    pub fn initial_config(size: u64) -> (r: InitialConfig)
        ensures
            r.id@ == 1,
            r.cluster_size == size,
            r.min_ticks_before_election@ == 10,
            r.max_ticks_before_election@ == 20,
            r.ticks_between_heartbeats@ == 1,
            r.last_applied_idx is None,
    {
        initial_config(size)
    }
}

impl<Rng: RngProvider> Cluster<Rng> {
    /// Every node can run, and they stand in the order of their ids.
    pub open spec fn wf(&self) -> bool {
        &&& forall|i: int| 0 <= i < self.nodes@.len() ==> (#[trigger] self.nodes@[i]).wf()
        &&& sorted_by_id(self.nodes@)
    }

    /// There is a node with this id.
    pub open spec fn has(&self, id: u64) -> bool {
        position(self.nodes@, id) < self.nodes@.len()
    }

    /// The cluster as a state machine, with nothing sent yet.
    pub open spec fn world(&self) -> World {
        World {
            nodes: Seq::new(self.nodes@.len(), |i: int| self.nodes@[i]@),
            net: Set::empty(),
            reigns: Map::empty(),
            campaigns: Map::empty(),
        }
    }

    /// Nothing happened to the cluster yet.
    pub open spec fn is_fresh(&self) -> bool {
        &&& self.wf()
        &&& self.paused_nodes@ == Set::<u64>::empty()
        &&& self.message_buffer@.len() == 0
        &&& self.events@.len() == 0
        &&& self.tick_rate_ms == 500
        &&& self.nodes@.len() >= 1 ==> self.world().is_initial()
    }

    /// The cluster is what it was, apart from its nodes.
    pub open spec fn same_but_nodes(&self, before: &Self) -> bool {
        &&& self.paused_nodes == before.paused_nodes
        &&& self.message_buffer == before.message_buffer
        &&& self.events == before.events
        &&& self.tick_rate_ms == before.tick_rate_ms
        &&& self.rng == before.rng
        &&& self.nodes@.len() == before.nodes@.len()
    }

    /// A new cluster with this configuration, whose chance comes from `rng`.
    pub fn from_config_with_rng(config: InitialConfig, drop_rate: FaultRate, rng: Rng) -> (r: Self)
        requires
            config.cluster_size <= usize::MAX,
            config.min_ticks_before_election@ < config.max_ticks_before_election@,
        ensures
            r.is_fresh(),
            r.nodes@.len() == config.cluster_size,
            forall|i: int|
                0 <= i < r.nodes@.len() ==> starts_as(#[trigger] r.nodes@[i], i + 1, config)
                    && sends_at(r.nodes@[i], drop_rate),
            wired(r.nodes@),
            r.rng == rng,
    {
        let nodes = cluster_from_config(config, drop_rate, &rng);
        let r = Self {
            nodes,
            paused_nodes: HashSet::new(),
            message_buffer: Vec::new(),
            events: Vec::new(),
            tick_rate_ms: 500,
            rng,
        };
        proof {
            if r.nodes@.len() >= 1 {
                let w = r.world();
                assert forall|i: int| 0 <= i < w.nodes.len() implies {
                    let s = #[trigger] w.nodes[i];
                    &&& s.wf()
                    &&& s.id == i + 1
                    &&& s.cluster_size == w.nodes.len()
                    &&& s == NodeModel::initial(
                        s.id,
                        s.cluster_size,
                        s.min_timeout,
                        s.max_timeout,
                        s.heartbeat_interval,
                        Seq::empty(),
                        s.election_timeout,
                    )
                } by {
                    assert(starts_as(r.nodes@[i], i + 1, config));
                }
            }
        }
        r
    }

    /// The position of the first node that has the id `id`, or their number if
    /// none has.
    pub(crate) fn find(&self, id: u64) -> (r: usize)
        ensures
            r == position(self.nodes@, id),
            r <= self.nodes@.len(),
            r < self.nodes@.len() ==> self.nodes@[r as int].id@ == id,
    {
        let mut i: usize = 0;
        while i < self.nodes.len() && self.nodes[i].id.get() != id
            invariant
                i <= self.nodes@.len(),
                forall|j: int| 0 <= j < i ==> (#[trigger] self.nodes@[j]).id@ != id,
            decreases self.nodes@.len() - i,
        {
            i = i + 1;
        }
        proof {
            lemma_position(self.nodes@, id, i as int);
        }
        i
    }

    /// Gets a reference to a node by its ID.
    pub fn get(&self, id: u64) -> (r: &TestNode<Rng>)
        requires
            self.has(id),
        ensures
            *r == self.nodes@[position(self.nodes@, id) as int],
    {
        let i: usize = self.find(id);
        &self.nodes[i]
    }

    /// Gets a mutable reference to a node by its ID.
    pub fn get_mut(&mut self, id: u64) -> (r: &mut TestNode<Rng>)
        requires
            old(self).has(id),
        ensures
            *r == old(self).nodes@[position(old(self).nodes@, id) as int],
            final(self).nodes@ == old(self).nodes@.update(
                position(old(self).nodes@, id) as int,
                *final(r),
            ),
            final(self).same_but_nodes(old(self)),
    {
        let i: usize = self.find(id);
        &mut self.nodes[i]
    }

    /// Adds a node to the cluster, ensuring that the `nodes` vector remains sorted by ID.
    /// It comes after the nodes whose id is not larger.
    pub fn add(&mut self, node: TestNode<Rng>)
        requires
            sorted_by_id(old(self).nodes@),
        ensures
            sorted_by_id(final(self).nodes@),
            exists|k: int|
                0 <= k <= old(self).nodes@.len() && #[trigger] old(self).nodes@.insert(k, node)
                    == final(self).nodes@ && (forall|j: int|
                    0 <= j < k ==> (#[trigger] old(self).nodes@[j]).id@ <= node.id@) && (forall|
                    j: int,
                |
                    k <= j < old(self).nodes@.len() ==> (#[trigger] old(self).nodes@[j]).id@
                        > node.id@),
            final(self).paused_nodes == old(self).paused_nodes,
            final(self).message_buffer == old(self).message_buffer,
            final(self).events == old(self).events,
            final(self).tick_rate_ms == old(self).tick_rate_ms,
            final(self).rng == old(self).rng,
            old(self).wf() && node.wf() ==> final(self).wf(),
    {
        let ghost before = self.nodes@;
        let id: u64 = node.id.get();
        let mut k: usize = 0;
        while k < self.nodes.len() && self.nodes[k].id.get() <= id
            invariant
                k <= self.nodes@.len(),
                self.nodes@ == before,
                forall|j: int| 0 <= j < k ==> (#[trigger] before[j]).id@ <= id,
            decreases self.nodes@.len() - k,
        {
            k = k + 1;
        }
        proof {
            assert forall|j: int| k <= j < before.len() implies (#[trigger] before[j]).id@ > id by {
                assert(before[k as int].id@ <= before[j].id@);
            }
        }
        self.nodes.insert(k, node);
        assert(self.nodes@ == before.insert(k as int, node));
        assert forall|i: int| 0 <= i < self.nodes@.len() implies {
            ||| #[trigger] self.nodes@[i] == node
            ||| exists|j: int| 0 <= j < before.len() && self.nodes@[i] == #[trigger] before[j]
        } by {
            if i < k {
                assert(self.nodes@[i] == before[i]);
            } else if i > k {
                assert(self.nodes@[i] == before[i - 1]);
            }
        }
    }

    /// Removes a node from the cluster by its ID.
    pub fn remove(&mut self, id: u64) -> (r: TestNode<Rng>)
        requires
            old(self).has(id),
        ensures
            r == old(self).nodes@[position(old(self).nodes@, id) as int],
            final(self).nodes@ == old(self).nodes@.remove(
                position(old(self).nodes@, id) as int,
            ),
            final(self).paused_nodes == old(self).paused_nodes,
            final(self).message_buffer == old(self).message_buffer,
            final(self).events == old(self).events,
            final(self).tick_rate_ms == old(self).tick_rate_ms,
            final(self).rng == old(self).rng,
            old(self).wf() ==> final(self).wf(),
    {
        let pos: usize = self.find(id);
        self.nodes.remove(pos)
    }

    /// The same cluster in its first term, with `leader_id` as its leader.
    pub fn with_leader(self, leader_id: ValidNodeId) -> (r: Self)
        requires
            self.has(leader_id@),
            leader_id@ <= self.nodes@.len(),
        ensures
            r.same_but_nodes(&self),
            forall|i: int|
                0 <= i < r.nodes@.len() ==> {
                    let before = self.nodes@[i]@;
                    &&& (#[trigger] r.nodes@[i])@ == (NodeModel {
                        term: 1,
                        leader_id: leader_id@,
                        role: if i == position(self.nodes@, leader_id@) {
                            RoleView::leader(self.nodes@.len() as u64, 0)
                        } else {
                            before.role
                        },
                        ..before
                    })
                    &&& r.nodes@[i].id == self.nodes@[i].id
                    &&& r.nodes@[i].channel == self.nodes@[i].channel
                    &&& r.nodes@[i].config == self.nodes@[i].config
                },
            self.wf() && self.nodes@.len()
                == self.nodes@[position(self.nodes@, leader_id@) as int].config.cluster_size
                ==> r.wf(),
    {
        let mut cluster = self;
        let ghost before = cluster.nodes@;
        let leader: usize = cluster.find(leader_id.get());
        let n: usize = cluster.nodes.len();
        let mut i: usize = 0;
        while i < n
            invariant
                i <= n,
                n == before.len(),
                cluster.nodes@.len() == n,
                cluster.same_but_nodes(&self),
                forall|j: int| i <= j < n ==> #[trigger] cluster.nodes@[j] == before[j],
                forall|j: int|
                    0 <= j < i ==> {
                        &&& (#[trigger] cluster.nodes@[j])@ == (NodeModel {
                            term: 1,
                            leader_id: leader_id@,
                            ..before[j]@
                        })
                        &&& cluster.nodes@[j].id == before[j].id
                        &&& cluster.nodes@[j].channel == before[j].channel
                        &&& cluster.nodes@[j].config == before[j].config
                    },
            decreases n - i,
        {
            cluster.nodes[i].term = 1;
            cluster.nodes[i].leader_id = NodeId::from(leader_id);
            i = i + 1;
        }
        let follower_progress = NodeMap::new(n as u64, leader_id, FollowerProgress::new(0));
        assert(follower_progress@ =~= Seq::new(
            n as nat,
            |i: int| FollowerProgress::fresh(0),
        ));
        cluster.nodes[leader].role = Role::Leader(
            LeaderState { ticks_since_last_heartbeat: 0, follower_progress },
        );
        cluster
    }

    /// Ticks all nodes once
    pub fn tick(&mut self)
        requires
            old(self).wf(),
            forall|i: int|
                0 <= i < old(self).nodes@.len() ==> (#[trigger] old(self).nodes@[i])@.can_tick(),
        ensures
            final(self).wf(),
            final(self).same_but_nodes(old(self)),
            same_wiring(old(self).nodes@, final(self).nodes@),
            connected(old(self).nodes@) ==> connected(final(self).nodes@),
            forall|i: int|
                0 <= i < old(self).nodes@.len() ==> (#[trigger] final(self).nodes@[i]).became(
                    &old(self).nodes@[i],
                    old(self).nodes@[i]@.tick(final(self).nodes@[i].election_timeout),
                ),
    {
        let ghost before = *self;
        let n: usize = self.nodes.len();
        let mut i: usize = 0;
        while i < n
            invariant
                i <= n,
                n == before.nodes@.len(),
                before.wf(),
                self.same_but_nodes(&before),
                forall|j: int|
                    0 <= j < n ==> (#[trigger] before.nodes@[j])@.can_tick() && before.nodes@[j].wf(),
                forall|j: int| i <= j < n ==> #[trigger] self.nodes@[j] == before.nodes@[j],
                forall|j: int|
                    0 <= j < i ==> (#[trigger] self.nodes@[j]).wf() && self.nodes@[j].became(
                        &before.nodes@[j],
                        before.nodes@[j]@.tick(self.nodes@[j].election_timeout),
                    ),
            decreases n - i,
        {
            assert(before.nodes@[i as int]@.can_tick());
            self.nodes[i].tick();
            i = i + 1;
        }
        assert(sorted_by_id(self.nodes@)) by {
            assert forall|a: int, b: int| 0 <= a <= b < self.nodes@.len() implies (
            #[trigger] self.nodes@[a]).id@ <= (#[trigger] self.nodes@[b]).id@ by {
                assert(before.nodes@[a].id@ <= before.nodes@[b].id@);
            }
        }
        proof {
            law_wiring_is_kept(old(self).nodes@, self.nodes@, FaultRate(NO_FAULT));
        }
    }

    /// Check if a node is paused
    pub fn is_node_paused(&self, node_id: u64) -> (r: bool)
        ensures
            r <==> self.paused_nodes@.contains(node_id),
    {
        self.paused_nodes.contains(&node_id)
    }

    fn emit_event(&mut self, event: ClusterEvent)
        ensures
            final(self).events@ == old(self).events@.push(event),
            *final(self) == (Cluster { events: final(self).events, ..*old(self) }),
    {
        self.events.push(event);
    }

    /// What happened since this was last called, for the listeners.
    pub fn take_events(&mut self) -> (r: Vec<ClusterEvent>)
        ensures
            r@ == old(self).events@,
            final(self).events@.len() == 0,
            *final(self) == (Cluster { events: final(self).events, ..*old(self) }),
    {
        let mut out: Vec<ClusterEvent> = Vec::new();
        std::mem::swap(&mut out, &mut self.events);
        out
    }

    /// Pause a node (simulate crash)
    pub fn pause_node(&mut self, node_id: u64)
        ensures
            final(self).paused_nodes@ == old(self).paused_nodes@.insert(node_id),
            final(self).events@ == if old(self).paused_nodes@.contains(node_id) {
                old(self).events@
            } else {
                old(self).events@.push(ClusterEvent::NodePaused { node_id })
            },
            *final(self) == (Cluster {
                paused_nodes: final(self).paused_nodes,
                events: final(self).events,
                ..*old(self)
            }),
    {
        if !self.paused_nodes.contains(&node_id) {
            self.paused_nodes.insert(node_id);
            self.emit_event(ClusterEvent::NodePaused { node_id });
        } else {
            assert(self.paused_nodes@ =~= self.paused_nodes@.insert(node_id));
        }
    }

    /// Resume a paused node
    pub fn resume_node(&mut self, node_id: u64)
        ensures
            final(self).paused_nodes@ == old(self).paused_nodes@.remove(node_id),
            final(self).events@ == if old(self).paused_nodes@.contains(node_id) {
                old(self).events@.push(ClusterEvent::NodeResumed { node_id })
            } else {
                old(self).events@
            },
            *final(self) == (Cluster {
                paused_nodes: final(self).paused_nodes,
                events: final(self).events,
                ..*old(self)
            }),
    {
        if self.paused_nodes.remove(&node_id) {
            self.emit_event(ClusterEvent::NodeResumed { node_id });
        }
    }

    /// Toggle node paused state
    pub fn toggle_node(&mut self, node_id: u64)
        ensures
            final(self).paused_nodes@ == toggled(old(self).paused_nodes@, node_id),
            final(self).events@ == old(self).events@.push(
                if old(self).paused_nodes@.contains(node_id) {
                    ClusterEvent::NodeResumed { node_id }
                } else {
                    ClusterEvent::NodePaused { node_id }
                },
            ),
            *final(self) == (Cluster {
                paused_nodes: final(self).paused_nodes,
                events: final(self).events,
                ..*old(self)
            }),
    {
        if self.paused_nodes.contains(&node_id) {
            self.resume_node(node_id);
        } else {
            self.pause_node(node_id);
        }
    }

    /// Record a message to the buffer
    pub fn record_message(&mut self, msg: ClusterMessage)
        ensures
            final(self).message_buffer@ == old(self).message_buffer@.push(msg),
            final(self).events@.len() == old(self).events@.len() + 1,
            final(self).events@.drop_last() == old(self).events@,
            final(self).events@.last() matches ClusterEvent::MessageSent { from, to, msg_type }
                && from == msg.from && to == msg.to && msg_type@ == msg.msg_type@,
            *final(self) == (Cluster {
                message_buffer: final(self).message_buffer,
                events: final(self).events,
                ..*old(self)
            }),
    {
        let event = ClusterEvent::MessageSent {
            from: msg.from,
            to: msg.to,
            msg_type: msg.msg_type.clone(),
        };
        self.message_buffer.push(msg);
        let ghost before = self.events@;
        self.emit_event(event);
        assert(self.events@.drop_last() =~= before);
    }

    /// Get and clear new messages
    pub fn drain_messages(&mut self) -> (r: Vec<ClusterMessage>)
        ensures
            r@ == old(self).message_buffer@,
            final(self).message_buffer@.len() == 0,
            *final(self) == (Cluster {
                message_buffer: final(self).message_buffer,
                ..*old(self)
            }),
    {
        let mut out: Vec<ClusterMessage> = Vec::new();
        std::mem::swap(&mut out, &mut self.message_buffer);
        out
    }
}

/// `paused` with `id` in it if it was not, and out of it if it was.
pub open spec fn toggled(paused: Set<u64>, id: u64) -> Set<u64> {
    if paused.contains(id) {
        paused.remove(id)
    } else {
        paused.insert(id)
    }
}

/// To toggle a node twice is to leave it as it was.
pub proof fn law_toggle_twice(paused: Set<u64>, id: u64)
    ensures
        toggled(toggled(paused, id), id) == paused,
{
    assert(toggled(toggled(paused, id), id) =~= paused);
}

/// To resume a node that was just paused is to leave it as it was, if it ran.
pub proof fn law_resume_undoes_pause(paused: Set<u64>, id: u64)
    requires
        !paused.contains(id),
    ensures
        paused.insert(id).remove(id) == paused,
{
    assert(paused.insert(id).remove(id) =~= paused);
}

/// Which of `inbox` are messages.
pub open spec fn arrivals(inbox: Seq<Option<ProtoView>>) -> Seq<bool> {
    Seq::new(inbox.len(), |i: int| inbox[i] is Some)
}

/// What each node's inbox gave when it was last asked.
pub open spec fn latest<Rng: RngProvider>(nodes: Seq<TestNode<Rng>>) -> Seq<Option<ProtoView>> {
    Seq::new(nodes.len(), |i: int| nodes[i].channel.answers().last())
}

/// What arrived, as mathematical values.
pub open spec fn arrivals_view(inbox: Seq<Option<ProtoMessage>>) -> Seq<Option<ProtoView>> {
    Seq::new(inbox.len(), |i: int| answer_view(inbox[i]))
}

/// Each node of `after` is what came of the node of `before` by what `inbox`
/// holds for it.
pub open spec fn all_took<Rng: RngProvider>(
    before: Seq<TestNode<Rng>>,
    after: Seq<TestNode<Rng>>,
    inbox: Seq<Option<ProtoView>>,
) -> bool {
    &&& inbox.len() == before.len()
    &&& after.len() == before.len()
    &&& forall|i: int|
        0 <= i < before.len() ==> took_arrival(before[i], after[i], #[trigger] inbox[i])
}

/// Each node of `after` is what came of the node of `before` when its inbox
/// was asked once.
pub open spec fn all_asked<Rng: RngProvider>(
    before: Seq<TestNode<Rng>>,
    after: Seq<TestNode<Rng>>,
) -> bool {
    &&& after.len() == before.len()
    &&& forall|i: int| 0 <= i < before.len() ==> asked(before[i], #[trigger] after[i])
}

/// The inboxes of the nodes were not asked.
pub open spec fn none_asked<Rng: RngProvider>(
    before: Seq<TestNode<Rng>>,
    after: Seq<TestNode<Rng>>,
) -> bool {
    forall|i: int|
        0 <= i < before.len() ==> (#[trigger] after[i]).channel.answers()
            == before[i].channel.answers()
}

/// `passed` says which of the nodes pass the filter `predicate`.
pub open spec fn filters<Rng: RngProvider, F: Fn(NodeId) -> bool>(
    predicate: F,
    nodes: Seq<TestNode<Rng>>,
    passed: Seq<bool>,
) -> bool {
    &&& passed.len() == nodes.len()
    &&& forall|i: int|
        0 <= i < nodes.len() ==> call_ensures(
            predicate,
            (NodeId(Some(nodes[i].id.0)),),
            #[trigger] passed[i],
        )
}

/// A node whose inbox was asked can run as before.
proof fn lemma_stayed_wf<Rng: RngProvider>(before: TestNode<Rng>, after: TestNode<Rng>)
    requires
        before.wf(),
        stayed(before, after),
    ensures
        after.wf(),
        after@ == before@,
{
    assert forall|id: u64| 1 <= id <= after.config.cluster_size implies #[trigger]
        after.channel.reaches(id) by {
        assert(before.channel.reaches(id));
    }
}

/// What came of a node after its inbox was asked came of the node before.
proof fn lemma_took_from<Rng: RngProvider>(
    before: TestNode<Rng>,
    held: TestNode<Rng>,
    after: TestNode<Rng>,
    arrival: Option<ProtoView>,
)
    requires
        stayed(before, held),
        took_arrival(held, after, arrival),
    ensures
        took_arrival(before, after, arrival),
{
    assert(held@ == before@);
    if let Some(p) = arrival {
        assert(held.accepts(p.to_message()) == before.accepts(p.to_message()));
        if held.accepts(p.to_message()) {
            lemma_kept_of_same(
                held.channel,
                before.channel,
                all_sent(held@.step(p.to_message(), after.election_timeout).sent),
            );
            assert forall|id: u64| #[trigger] after.channel.reaches(id) == before.channel.reaches(
                id,
            ) by {
                assert(after.channel.reaches(id) == held.channel.reaches(id));
            }
            assert forall|sent: Sent| #[trigger] after.channel.keeps(sent) == before.channel.keeps(
                sent,
            ) by {
                assert(after.channel.keeps(sent) == held.channel.keeps(sent));
            }
        }
    }
}

/// Nodes that keep their ids keep their order.
pub(crate) proof fn lemma_same_ids_sorted<Rng: RngProvider>(
    before: Seq<TestNode<Rng>>,
    after: Seq<TestNode<Rng>>,
)
    requires
        sorted_by_id(before),
        after.len() == before.len(),
        forall|i: int| 0 <= i < after.len() ==> (#[trigger] after[i]).id == before[i].id,
    ensures
        sorted_by_id(after),
{
    assert forall|a: int, b: int| 0 <= a <= b < after.len() implies (#[trigger] after[a]).id@ <= (
    #[trigger] after[b]).id@ by {
        assert(before[a].id@ <= before[b].id@);
    }
}

impl<Rng: RngProvider> Cluster<Rng> {
    /// Lets the node at `index` take what arrived for it, if anything did. It
    /// comes to nothing if it cannot be handled.
    fn take_at(&mut self, index: usize, arrival: Option<ProtoMessage>)
        requires
            old(self).wf(),
            index < old(self).nodes@.len(),
        ensures
            final(self).same_but_nodes(old(self)),
            same_wiring(old(self).nodes@, final(self).nodes@),
            final(self).nodes@ == old(self).nodes@.update(
                index as int,
                final(self).nodes@[index as int],
            ),
            final(self).nodes@[index as int].id == old(self).nodes@[index as int].id,
            final(self).wf(),
            took_arrival(
                old(self).nodes@[index as int],
                final(self).nodes@[index as int],
                answer_view(arrival),
            ),
            final(self).nodes@[index as int].channel.answers() == old(
                self,
            ).nodes@[index as int].channel.answers(),
    {
        let ghost before = self.nodes@;
        match arrival {
            Some(msg) => {
                let _ = self.nodes[index].receive(msg);
            },
            None => {},
        }
        proof {
            assert(self.nodes@ =~= before.update(index as int, self.nodes@[index as int]));
            lemma_same_ids_sorted(before, self.nodes@);
        }
    }

    /// Asks the inbox of the node at `index` once, lets the node take what it
    /// gives, and says whether there was a message.
    fn ask_at(&mut self, index: usize) -> (r: bool)
        requires
            old(self).wf(),
            index < old(self).nodes@.len(),
        ensures
            final(self).same_but_nodes(old(self)),
            same_wiring(old(self).nodes@, final(self).nodes@),
            final(self).nodes@ == old(self).nodes@.update(
                index as int,
                final(self).nodes@[index as int],
            ),
            final(self).nodes@[index as int].id == old(self).nodes@[index as int].id,
            final(self).wf(),
            asked(old(self).nodes@[index as int], final(self).nodes@[index as int]),
            r <==> final(self).nodes@[index as int].channel.answers().last() is Some,
    {
        let ghost before = self.nodes@;
        let ghost was = before[index as int];
        assert(was.wf());
        let arrival = self.nodes[index].channel.try_recv();
        let ghost held = self.nodes@[index as int];
        let arrived = arrival.is_some();
        proof {
            assert(self.nodes@ =~= before.update(index as int, held));
            lemma_stayed_wf(was, held);
            lemma_same_ids_sorted(before, self.nodes@);
            assert forall|j: int| 0 <= j < self.nodes@.len() implies (
            #[trigger] self.nodes@[j]).wf() by {
                assert(before[j].wf());
            }
        }
        let ghost answer = answer_view(arrival);
        self.take_at(index, arrival);
        proof {
            assert(self.nodes@ =~= before.update(index as int, self.nodes@[index as int]));
            let now = self.nodes@[index as int];
            assert(now.channel.answers().drop_last() =~= was.channel.answers());
            assert(now.channel.answers().last() == answer);
            lemma_took_from(was, held, now, answer);
        }
        arrived
    }

    /// Lets each node take what arrived for it, and says for how many
    /// something did.
    pub fn take_arrivals(&mut self, inbox: Vec<Option<ProtoMessage>>) -> (r: u64)
        requires
            old(self).wf(),
            inbox@.len() == old(self).nodes@.len(),
        ensures
            final(self).wf(),
            final(self).same_but_nodes(old(self)),
            same_wiring(old(self).nodes@, final(self).nodes@),
            all_took(old(self).nodes@, final(self).nodes@, arrivals_view(inbox@)),
            none_asked(old(self).nodes@, final(self).nodes@),
            r == count_set(arrivals(arrivals_view(inbox@))),
    {
        let ghost before = *self;
        let ghost all = arrivals_view(inbox@);
        let n: usize = self.nodes.len();
        let mut count: u64 = 0;
        let mut i: usize = 0;
        assert(arrivals(all).take(0) =~= Seq::<bool>::empty());
        while i < n
            invariant
                i <= n,
                n == before.nodes@.len(),
                inbox@.len() == n,
                all == arrivals_view(inbox@),
                self.wf(),
                self.same_but_nodes(&before),
                count <= i,
                count == count_set(arrivals(all).take(i as int)),
                forall|j: int| i <= j < n ==> #[trigger] self.nodes@[j] == before.nodes@[j],
                forall|j: int|
                    0 <= j < i ==> {
                        &&& took_arrival(before.nodes@[j], #[trigger] self.nodes@[j], all[j])
                        &&& self.nodes@[j].channel.answers() == before.nodes@[j].channel.answers()
                    },
            decreases n - i,
        {
            assert(arrivals(all).take(i + 1).drop_last() =~= arrivals(all).take(i as int));
            let ghost so_far = self.nodes@;
            let arrival = match &inbox[i] {
                Some(msg) => Some(msg.clone()),
                None => None,
            };
            if arrival.is_some() {
                count = count + 1;
            }
            self.take_at(i, arrival);
            assert forall|j: int| 0 <= j < i + 1 implies {
                &&& took_arrival(before.nodes@[j], #[trigger] self.nodes@[j], all[j])
                &&& self.nodes@[j].channel.answers() == before.nodes@[j].channel.answers()
            } by {
                if j < i {
                    assert(self.nodes@[j] == so_far[j]);
                }
            }
            i = i + 1;
        }
        assert(arrivals(all).take(i as int) =~= arrivals(all));
        assert forall|j: int| 0 <= j < n implies took_arrival(
            before.nodes@[j],
            self.nodes@[j],
            #[trigger] all[j],
        ) by {
            assert(took_arrival(before.nodes@[j], self.nodes@[j], all[j]));
        }
        count
    }

    /// Lets each node that passes the filter take what arrived for it.
    pub fn take_arrivals_filter<F: Fn(NodeId) -> bool>(
        &mut self,
        inbox: Vec<Option<ProtoMessage>>,
        predicate: F,
    )
        requires
            old(self).wf(),
            inbox@.len() == old(self).nodes@.len(),
            forall|id: NodeId| call_requires(predicate, (id,)),
        ensures
            final(self).wf(),
            final(self).same_but_nodes(old(self)),
            same_wiring(old(self).nodes@, final(self).nodes@),
            none_asked(old(self).nodes@, final(self).nodes@),
            exists|passed: Seq<bool>| #[trigger]
                filters(predicate, old(self).nodes@, passed) && forall|i: int|
                    0 <= i < passed.len() ==> if #[trigger] passed[i] {
                        took_arrival(
                            old(self).nodes@[i],
                            final(self).nodes@[i],
                            arrivals_view(inbox@)[i],
                        )
                    } else {
                        final(self).nodes@[i] == old(self).nodes@[i]
                    },
    {
        let ghost before = *self;
        let ghost all = arrivals_view(inbox@);
        let n: usize = self.nodes.len();
        let mut i: usize = 0;
        let ghost mut passed: Seq<bool> = Seq::empty();
        while i < n
            invariant
                i <= n,
                n == before.nodes@.len(),
                inbox@.len() == n,
                all == arrivals_view(inbox@),
                self.wf(),
                self.same_but_nodes(&before),
                same_wiring(before.nodes@, self.nodes@),
                forall|id: NodeId| call_requires(predicate, (id,)),
                passed.len() == i,
                forall|j: int| i <= j < n ==> #[trigger] self.nodes@[j] == before.nodes@[j],
                forall|j: int|
                    0 <= j < i ==> {
                        &&& call_ensures(
                            predicate,
                            (NodeId(Some(before.nodes@[j].id.0)),),
                            #[trigger] passed[j],
                        )
                        &&& if passed[j] {
                            took_arrival(before.nodes@[j], self.nodes@[j], all[j])
                        } else {
                            self.nodes@[j] == before.nodes@[j]
                        }
                    },
                none_asked(before.nodes@, self.nodes@),
            decreases n - i,
        {
            let ghost so_far = self.nodes@;
            let id = NodeId::from(self.nodes[i].id);
            let passes = predicate(id);
            if passes {
                let arrival = match &inbox[i] {
                    Some(msg) => Some(msg.clone()),
                    None => None,
                };
                self.take_at(i, arrival);
            }
            proof {
                let more = passed.push(passes);
                assert forall|j: int| 0 <= j < i + 1 implies {
                    &&& call_ensures(
                        predicate,
                        (NodeId(Some(before.nodes@[j].id.0)),),
                        #[trigger] more[j],
                    )
                    &&& if more[j] {
                        took_arrival(before.nodes@[j], self.nodes@[j], all[j])
                    } else {
                        self.nodes@[j] == before.nodes@[j]
                    }
                } by {
                    if j < i {
                        assert(more[j] == passed[j]);
                        assert(self.nodes@[j] == so_far[j]);
                    }
                }
                passed = more;
                assert forall|j: int| 0 <= j < n implies (
                #[trigger] self.nodes@[j]).channel.answers()
                    == before.nodes@[j].channel.answers() by {
                    assert(so_far[j].channel.answers() == before.nodes@[j].channel.answers());
                    if j != i {
                        assert(self.nodes@[j] == so_far[j]);
                    }
                }
            }
            i = i + 1;
        }
        proof {
            assert(filters(predicate, before.nodes@, passed));
        }
    }

    /// Steps every node with a message at most once returning how many nodes had a message.
    /// Every inbox is asked once, in the order of the nodes.
    pub fn step(&mut self) -> (r: u64)
        requires
            old(self).wf(),
        ensures
            final(self).wf(),
            final(self).same_but_nodes(old(self)),
            same_wiring(old(self).nodes@, final(self).nodes@),
            connected(old(self).nodes@) ==> connected(final(self).nodes@),
            all_asked(old(self).nodes@, final(self).nodes@),
            r == count_set(arrivals(latest(final(self).nodes@))),
    {
        let ghost before = *self;
        let n: usize = self.nodes.len();
        let mut count: u64 = 0;
        let mut i: usize = 0;
        assert(arrivals(latest(self.nodes@)).take(0) =~= Seq::<bool>::empty());
        while i < n
            invariant
                i <= n,
                n == before.nodes@.len(),
                self.wf(),
                self.same_but_nodes(&before),
                count <= i,
                count == count_set(arrivals(latest(self.nodes@)).take(i as int)),
                forall|j: int| i <= j < n ==> #[trigger] self.nodes@[j] == before.nodes@[j],
                forall|j: int| 0 <= j < i ==> asked(before.nodes@[j], #[trigger] self.nodes@[j]),
            decreases n - i,
        {
            let ghost so_far = self.nodes@;
            let had = self.ask_at(i);
            proof {
                let flags = arrivals(latest(self.nodes@));
                assert(flags.take(i + 1).drop_last() =~= arrivals(latest(so_far)).take(i as int));
                assert forall|j: int| 0 <= j < i + 1 implies asked(
                    before.nodes@[j],
                    #[trigger] self.nodes@[j],
                ) by {
                    if j < i {
                        assert(self.nodes@[j] == so_far[j]);
                    }
                }
            }
            if had {
                count = count + 1;
            }
            i = i + 1;
        }
        assert(arrivals(latest(self.nodes@)).take(i as int) =~= arrivals(latest(self.nodes@)));
        proof {
            law_wiring_is_kept(old(self).nodes@, self.nodes@, FaultRate(NO_FAULT));
        }
        count
    }

    /// Steps every node that passes filter with a message at most once. The
    /// inboxes of those nodes are asked once, in the order of the nodes, and
    /// no other.
    pub fn step_filter<F: Fn(NodeId) -> bool>(&mut self, predicate: F)
        requires
            old(self).wf(),
            forall|id: NodeId| call_requires(predicate, (id,)),
        ensures
            final(self).wf(),
            final(self).same_but_nodes(old(self)),
            same_wiring(old(self).nodes@, final(self).nodes@),
            connected(old(self).nodes@) ==> connected(final(self).nodes@),
            exists|passed: Seq<bool>| #[trigger]
                filters(predicate, old(self).nodes@, passed) && forall|i: int|
                    0 <= i < passed.len() ==> if #[trigger] passed[i] {
                        asked(old(self).nodes@[i], final(self).nodes@[i])
                    } else {
                        final(self).nodes@[i] == old(self).nodes@[i]
                    },
    {
        let ghost before = *self;
        let n: usize = self.nodes.len();
        let mut i: usize = 0;
        let ghost mut passed: Seq<bool> = Seq::empty();
        while i < n
            invariant
                i <= n,
                n == before.nodes@.len(),
                self.wf(),
                self.same_but_nodes(&before),
                same_wiring(before.nodes@, self.nodes@),
                forall|id: NodeId| call_requires(predicate, (id,)),
                passed.len() == i,
                forall|j: int| i <= j < n ==> #[trigger] self.nodes@[j] == before.nodes@[j],
                forall|j: int|
                    0 <= j < i ==> {
                        &&& call_ensures(
                            predicate,
                            (NodeId(Some(before.nodes@[j].id.0)),),
                            #[trigger] passed[j],
                        )
                        &&& if passed[j] {
                            asked(before.nodes@[j], self.nodes@[j])
                        } else {
                            self.nodes@[j] == before.nodes@[j]
                        }
                    },
            decreases n - i,
        {
            let ghost so_far = self.nodes@;
            let id = NodeId::from(self.nodes[i].id);
            let passes = predicate(id);
            if passes {
                let _ = self.ask_at(i);
            }
            proof {
                let more = passed.push(passes);
                assert forall|j: int| 0 <= j < i + 1 implies {
                    &&& call_ensures(
                        predicate,
                        (NodeId(Some(before.nodes@[j].id.0)),),
                        #[trigger] more[j],
                    )
                    &&& if more[j] {
                        asked(before.nodes@[j], self.nodes@[j])
                    } else {
                        self.nodes@[j] == before.nodes@[j]
                    }
                } by {
                    if j < i {
                        assert(more[j] == passed[j]);
                        assert(self.nodes@[j] == so_far[j]);
                    }
                }
                passed = more;
            }
            i = i + 1;
        }
        assert(filters(predicate, before.nodes@, passed));
        proof {
            law_wiring_is_kept(old(self).nodes@, self.nodes@, FaultRate(NO_FAULT));
        }
    }

    /// Whether `predicate` holds of every node.
    pub fn all_nodes<P: Fn(&TestNode<Rng>) -> bool>(&self, predicate: P) -> (r: bool)
        requires
            forall|node: &TestNode<Rng>| call_requires(predicate, (node,)),
        ensures
            r ==> forall|i: int|
                0 <= i < self.nodes@.len() ==> call_ensures(
                    predicate,
                    (&#[trigger] self.nodes@[i],),
                    true,
                ),
            !r ==> exists|i: int|
                0 <= i < self.nodes@.len() && call_ensures(
                    predicate,
                    (&#[trigger] self.nodes@[i],),
                    false,
                ),
    {
        let mut i: usize = 0;
        while i < self.nodes.len()
            invariant
                i <= self.nodes@.len(),
                forall|node: &TestNode<Rng>| call_requires(predicate, (node,)),
                forall|j: int|
                    0 <= j < i ==> call_ensures(predicate, (&#[trigger] self.nodes@[j],), true),
            decreases self.nodes@.len() - i,
        {
            let holds = predicate(&self.nodes[i]);
            if !holds {
                assert(call_ensures(predicate, (&self.nodes@[i as int],), false));
                return false;
            }
            i = i + 1;
        }
        true
    }

    /// Ticks the node at `index`.
    pub(crate) fn tick_at(&mut self, index: usize)
        requires
            old(self).wf(),
            index < old(self).nodes@.len(),
            old(self).nodes@[index as int]@.can_tick(),
        ensures
            final(self).wf(),
            final(self).same_but_nodes(old(self)),
            same_wiring(old(self).nodes@, final(self).nodes@),
            final(self).nodes@ == old(self).nodes@.update(
                index as int,
                final(self).nodes@[index as int],
            ),
            final(self).nodes@[index as int].became(
                &old(self).nodes@[index as int],
                old(self).nodes@[index as int]@.tick(
                    final(self).nodes@[index as int].election_timeout,
                ),
            ),
    {
        let ghost before = self.nodes@;
        assert(before[index as int].wf());
        self.nodes[index].tick();
        proof {
            assert(self.nodes@ =~= before.update(index as int, self.nodes@[index as int]));
            lemma_same_ids_sorted(before, self.nodes@);
            assert forall|j: int| 0 <= j < self.nodes@.len() implies (
            #[trigger] self.nodes@[j]).wf() by {
                assert(before[j].wf());
            }
        }
    }

    /// Lets the node at `index` handle all messages that came in for it.
    pub(crate) fn drain_at(&mut self, index: usize)
        requires
            old(self).wf(),
            index < old(self).nodes@.len(),
        ensures
            final(self).wf(),
            final(self).same_but_nodes(old(self)),
            same_wiring(old(self).nodes@, final(self).nodes@),
            final(self).nodes@ == old(self).nodes@.update(
                index as int,
                final(self).nodes@[index as int],
            ),
            final(self).nodes@[index as int].id == old(self).nodes@[index as int].id,
            drained(
                old(self).nodes@[index as int],
                final(self).nodes@[index as int],
                old(self).paused_nodes@,
            ),
    {
        let ghost before = self.nodes@;
        assert(before[index as int].wf());
        drain_inbox(&mut self.nodes[index], &self.paused_nodes);
        proof {
            assert(self.nodes@ =~= before.update(index as int, self.nodes@[index as int]));
            lemma_same_ids_sorted(before, self.nodes@);
            assert forall|j: int| 0 <= j < self.nodes@.len() implies (
            #[trigger] self.nodes@[j]).wf() by {
                assert(before[j].wf());
            }
        }
    }

    /// Ticks the nodes that are not paused.
    fn tick_unpaused(&mut self)
        requires
            old(self).wf(),
            forall|i: int|
                0 <= i < old(self).nodes@.len() && !old(self).paused_nodes@.contains(
                    (#[trigger] old(self).nodes@[i]).id@,
                ) ==> old(self).nodes@[i]@.can_tick(),
        ensures
            final(self).wf(),
            final(self).same_but_nodes(old(self)),
            same_wiring(old(self).nodes@, final(self).nodes@),
            all_ticked(old(self).nodes@, final(self).nodes@, old(self).paused_nodes@),
    {
        let ghost before = *self;
        let ghost paused = self.paused_nodes@;
        let n: usize = self.nodes.len();
        let mut i: usize = 0;
        while i < n
            invariant
                i <= n,
                n == before.nodes@.len(),
                paused == before.paused_nodes@,
                self.wf(),
                self.same_but_nodes(&before),
                forall|j: int|
                    0 <= j < n && !paused.contains((#[trigger] before.nodes@[j]).id@)
                        ==> before.nodes@[j]@.can_tick(),
                forall|j: int| i <= j < n ==> #[trigger] self.nodes@[j] == before.nodes@[j],
                forall|j: int|
                    0 <= j < i ==> ticked_unless(
                        before.nodes@[j],
                        #[trigger] self.nodes@[j],
                        paused,
                    ),
            decreases n - i,
        {
            let ghost so_far = self.nodes@;
            let id: u64 = self.nodes[i].id.get();
            assert(so_far[i as int] == before.nodes@[i as int]);
            if !self.paused_nodes.contains(&id) {
                self.tick_at(i);
            }
            assert forall|j: int| 0 <= j < i + 1 implies ticked_unless(
                before.nodes@[j],
                #[trigger] self.nodes@[j],
                paused,
            ) by {
                if j < i {
                    assert(self.nodes@[j] == so_far[j]);
                }
            }
            i = i + 1;
        }
    }

    /// Lets the nodes that are not paused handle all that came in for them.
    fn drain_unpaused(&mut self)
        requires
            old(self).wf(),
        ensures
            final(self).wf(),
            final(self).same_but_nodes(old(self)),
            same_wiring(old(self).nodes@, final(self).nodes@),
            all_drained(old(self).nodes@, final(self).nodes@, old(self).paused_nodes@),
    {
        let ghost before = *self;
        let ghost paused = self.paused_nodes@;
        let n: usize = self.nodes.len();
        let mut i: usize = 0;
        while i < n
            invariant
                i <= n,
                n == before.nodes@.len(),
                paused == before.paused_nodes@,
                self.wf(),
                self.same_but_nodes(&before),
                same_wiring(before.nodes@, self.nodes@),
                forall|j: int| i <= j < n ==> #[trigger] self.nodes@[j] == before.nodes@[j],
                forall|j: int|
                    0 <= j < i ==> drained_unless(
                        before.nodes@[j],
                        #[trigger] self.nodes@[j],
                        paused,
                    ),
            decreases n - i,
        {
            let ghost so_far = self.nodes@;
            let id: u64 = self.nodes[i].id.get();
            assert(so_far[i as int] == before.nodes@[i as int]);
            if !self.paused_nodes.contains(&id) {
                self.drain_at(i);
            }
            assert forall|j: int| 0 <= j < i + 1 implies drained_unless(
                before.nodes@[j],
                #[trigger] self.nodes@[j],
                paused,
            ) by {
                if j < i {
                    assert(self.nodes@[j] == so_far[j]);
                }
            }
            i = i + 1;
        }
    }

    /// Tick only active (non-paused) nodes and process incoming messages. All
    /// ticks come first; then the nodes empty their inboxes, in order.
    pub fn tick_active(&mut self)
        requires
            old(self).wf(),
            forall|i: int|
                0 <= i < old(self).nodes@.len() && !old(self).paused_nodes@.contains(
                    (#[trigger] old(self).nodes@[i]).id@,
                ) ==> old(self).nodes@[i]@.can_tick(),
        ensures
            final(self).wf(),
            final(self).same_but_nodes(old(self)),
            same_wiring(old(self).nodes@, final(self).nodes@),
            connected(old(self).nodes@) ==> connected(final(self).nodes@),
            exists|mid: Seq<TestNode<Rng>>|
                #![trigger all_drained(mid, final(self).nodes@, old(self).paused_nodes@)]
                all_ticked(old(self).nodes@, mid, old(self).paused_nodes@) && all_drained(
                    mid,
                    final(self).nodes@,
                    old(self).paused_nodes@,
                ),
    {
        // First, tick all active nodes (increment timers, may send messages)
        self.tick_unpaused();
        // Then, step all active nodes to process incoming messages
        // Ignore messages from paused nodes (they're "dead" and their messages should be discarded)
        self.drain_unpaused();
        proof {
            law_wiring_is_kept(old(self).nodes@, self.nodes@, FaultRate(NO_FAULT));
        }
    }

    /// Tick a single node and process its incoming messages
    pub fn tick_single_node(&mut self, node_id: u64)
        requires
            old(self).wf(),
            !old(self).paused_nodes@.contains(node_id) && old(self).has(node_id) ==> old(
                self,
            ).nodes@[position(old(self).nodes@, node_id) as int]@.can_tick(),
        ensures
            final(self).wf(),
            final(self).same_but_nodes(old(self)),
            same_wiring(old(self).nodes@, final(self).nodes@),
            connected(old(self).nodes@) ==> connected(final(self).nodes@),
            old(self).paused_nodes@.contains(node_id) || !old(self).has(node_id) ==> *final(self)
                == *old(self),
            !old(self).paused_nodes@.contains(node_id) && old(self).has(node_id) ==> {
                let k = position(old(self).nodes@, node_id) as int;
                &&& final(self).nodes@ == old(self).nodes@.update(k, final(self).nodes@[k])
                &&& exists|mid: TestNode<Rng>|
                    #![trigger drained(mid, final(self).nodes@[k], old(self).paused_nodes@)]
                    ticked(old(self).nodes@[k], mid) && drained(
                        mid,
                        final(self).nodes@[k],
                        old(self).paused_nodes@,
                    )
            },
    {
        let ghost before = *self;
        // Only tick and process if the node is not crashed/paused
        if !self.paused_nodes.contains(&node_id) {
            let k: usize = self.find(node_id);
            if k < self.nodes.len() {
                // First tick the node
                self.tick_at(k);
                let ghost mid = self.nodes@[k as int];
                // Then step the node for all pending messages in its inbox
                self.drain_at(k);
                proof {
                    assert(ticked(before.nodes@[k as int], mid));
                    assert(drained(mid, self.nodes@[k as int], before.paused_nodes@));
                    assert(self.nodes@ =~= before.nodes@.update(k as int, self.nodes@[k as int]));
                }
            }
        }
        proof {
            law_wiring_is_kept(old(self).nodes@, self.nodes@, FaultRate(NO_FAULT));
        }
    }
}

/// A node is found by its id: where there is one with this id, at the first
/// place that holds one, and else behind the last place.
pub proof fn law_first_with_the_id_is_found<Rng: RngProvider>(
    nodes: Seq<TestNode<Rng>>,
    id: u64,
)
    ensures
        position(nodes, id) <= nodes.len(),
        position(nodes, id) < nodes.len() ==> nodes[position(nodes, id) as int].id@ == id,
        forall|j: int| 0 <= j < position(nodes, id) ==> (#[trigger] nodes[j]).id@ != id,
    decreases nodes.len(),
{
    if nodes.len() > 0 && nodes[0].id@ != id {
        let rest = nodes.drop_first();
        law_first_with_the_id_is_found(rest, id);
        assert forall|j: int| 0 <= j < position(nodes, id) implies (#[trigger] nodes[j]).id@
            != id by {
            if j > 0 {
                assert(rest[j - 1].id@ != id);
            }
        }
    }
}

/// To toggle a node changes whether it is paused, and no other node.
pub proof fn law_toggle_changes_one(paused: Set<u64>, id: u64, other: u64)
    ensures
        toggled(paused, id).contains(id) <==> !paused.contains(id),
        other != id ==> (toggled(paused, id).contains(other) <==> paused.contains(other)),
{
}

/// The two nodes are in the same state and have sent the same.
pub open spec fn idle<Rng: RngProvider>(before: TestNode<Rng>, after: TestNode<Rng>) -> bool {
    &&& after@ == before@
    &&& after.rng == before.rng
    &&& after.channel.history() == before.channel.history()
}

/// A tick is that of the node itself: it is in the state that the tick tells,
/// has sent what the tick tells, in order, and has taken nothing in. A paused
/// node stays as it is.
pub proof fn law_tick_of_a_cluster_is_of_its_nodes<Rng: RngProvider>(
    before: Seq<TestNode<Rng>>,
    after: Seq<TestNode<Rng>>,
    paused: Set<u64>,
    i: int,
)
    requires
        all_ticked(before, after, paused),
        0 <= i < before.len(),
    ensures
        after.len() == before.len(),
        paused.contains(before[i].id@) ==> after[i] == before[i],
        !paused.contains(before[i].id@) ==> {
            let effect = before[i]@.tick(after[i].election_timeout);
            &&& after[i]@ == effect.node
            &&& after[i].channel.history() == before[i].channel.history() + all_sent(effect.sent)
            &&& after[i].channel.answers() == before[i].channel.answers()
        },
{
    assert(ticked_unless(before[i], after[i], paused));
}

/// A node whose inbox was asked once got one answer more. By a message that it
/// can handle it comes into the state, and has sent what, the message calls
/// for. By nothing, and by a message that it cannot handle, it stays as it is.
pub proof fn law_one_answer_is_taken<Rng: RngProvider>(
    before: TestNode<Rng>,
    after: TestNode<Rng>,
)
    requires
        asked(before, after),
    ensures
        after.channel.answers().len() == before.channel.answers().len() + 1,
        forall|i: int|
            0 <= i < before.channel.answers().len() ==> #[trigger] after.channel.answers()[i]
                == before.channel.answers()[i],
        match after.channel.answers().last() {
            None => idle(before, after),
            Some(p) => if before.accepts(p.to_message()) {
                let effect = before@.step(p.to_message(), after.election_timeout);
                &&& after@ == effect.node
                &&& after.channel.history() == before.channel.history() + all_sent(effect.sent)
            } else {
                idle(before, after)
            },
        },
{
    let earlier = after.channel.answers().drop_last();
    assert forall|i: int| 0 <= i < before.channel.answers().len() implies
        #[trigger] after.channel.answers()[i] == before.channel.answers()[i] by {
        assert(earlier[i] == after.channel.answers()[i]);
    }
}

/// The nodes of `trace` came of each other by one after the other of
/// `messages`: by one that can be handled and does not come from a paused node
/// as it calls for, and by every other not at all.
pub open spec fn took_each<Rng: RngProvider>(
    trace: Seq<TestNode<Rng>>,
    messages: Seq<ProtoView>,
    paused: Set<u64>,
) -> bool {
    &&& trace.len() == messages.len() + 1
    &&& forall|k: int|
        0 <= k < messages.len() ==> {
            let p = #[trigger] messages[k];
            let effect = trace[k]@.step(p.to_message(), trace[k + 1].election_timeout);
            if !paused.contains(p.from) && trace[k].accepts(p.to_message()) {
                &&& trace[k + 1]@ == effect.node
                &&& trace[k + 1].channel.history() == trace[k].channel.history() + all_sent(
                    effect.sent,
                )
            } else {
                idle(trace[k], trace[k + 1])
            }
        }
}

/// A node whose inbox was emptied took each message that the inbox gave, in
/// order and once. The answers it got before stay; of the new ones all but the
/// last are messages, and the last is none, as long as they can be counted.
pub proof fn law_inbox_is_emptied<Rng: RngProvider>(
    before: TestNode<Rng>,
    after: TestNode<Rng>,
    paused: Set<u64>,
) -> (r: (Seq<ProtoView>, Seq<TestNode<Rng>>))
    requires
        drained(before, after, paused),
    ensures
        took_each(r.1, r.0, paused),
        r.1[0] == before,
        idle(r.1.last(), after),
        forall|i: int|
            0 <= i < before.channel.answers().len() ==> #[trigger] after.channel.answers()[i]
                == before.channel.answers()[i],
        forall|k: int|
            0 <= k < r.0.len() ==> after.channel.answers()[before.channel.answers().len() + k]
                == Some(#[trigger] r.0[k]),
        r.0.len() < u64::MAX ==> {
            &&& after.channel.answers().len() == before.channel.answers().len() + r.0.len() + 1
            &&& after.channel.answers().last() is None
        },
        after.channel.answers() == before.channel.answers().push(None) ==> idle(before, after),
{
    let (inbox, trace) = choose|inbox: Seq<ProtoView>, trace: Seq<TestNode<Rng>>| #[trigger]
        handled_all(before, after, inbox, trace, paused) && emptied(
            before.channel.answers(),
            after.channel.answers(),
            inbox,
        );
    let old_answers = before.channel.answers();
    let new_answers = after.channel.answers();
    assert forall|k: int| 0 <= k < inbox.len() implies {
        let p = #[trigger] inbox[k];
        let effect = trace[k]@.step(p.to_message(), trace[k + 1].election_timeout);
        if !paused.contains(p.from) && trace[k].accepts(p.to_message()) {
            &&& trace[k + 1]@ == effect.node
            &&& trace[k + 1].channel.history() == trace[k].channel.history() + all_sent(effect.sent)
        } else {
            idle(trace[k], trace[k + 1])
        }
    } by {
        assert(handled(trace[k], trace[k + 1], inbox[k], paused));
    }
    assert(given(inbox).len() == inbox.len());
    assert forall|k: int| 0 <= k < inbox.len() implies new_answers[old_answers.len() + k] == Some(
        #[trigger] inbox[k],
    ) by {
        assert(given(inbox)[k] == Some(inbox[k]));
    }
    if new_answers == old_answers.push(None) {
        if inbox.len() > 0 {
            assert(new_answers[old_answers.len() as int] == Some(inbox[0]));
            assert(false);
        }
    }
    (inbox, trace)
}

/// What a paused node sent is discarded: a node that got nothing else stays as
/// it is.
pub proof fn law_messages_of_paused_nodes_are_discarded<Rng: RngProvider>(
    trace: Seq<TestNode<Rng>>,
    messages: Seq<ProtoView>,
    paused: Set<u64>,
)
    requires
        took_each(trace, messages, paused),
        forall|k: int| 0 <= k < messages.len() ==> paused.contains((#[trigger] messages[k]).from),
    ensures
        idle(trace[0], trace.last()),
    decreases messages.len(),
{
    if messages.len() > 0 {
        let fewer = messages.drop_last();
        assert forall|k: int| 0 <= k < fewer.len() implies {
            &&& paused.contains((#[trigger] fewer[k]).from)
            &&& idle(trace.drop_last()[k], trace.drop_last()[k + 1])
        } by {
            assert(paused.contains(messages[k].from));
        }
        law_messages_of_paused_nodes_are_discarded(trace.drop_last(), fewer, paused);
        let last = messages.len() - 1;
        assert(paused.contains(messages[last].from));
        assert(trace.drop_last().last() == trace[last]);
    }
}

/// A node as it starts follows nobody, has voted for nobody, is in no term yet
/// and holds nothing. It goes by what was configured, and its channel reaches
/// all, has carried nothing and keeps nothing.
pub proof fn law_nodes_start_as_configured<Rng: RngProvider>(
    node: TestNode<Rng>,
    id: u64,
    config: InitialConfig,
)
    requires
        starts_as(node, id as int, config),
    ensures
        node.id@ == id,
        node.config.id@ == id,
        node.config.cluster_size == config.cluster_size,
        node.config.min_ticks_before_election == config.min_ticks_before_election,
        node.config.max_ticks_before_election == config.max_ticks_before_election,
        node.config.ticks_between_heartbeats == config.ticks_between_heartbeats,
        node.term == 0,
        node.voted_for@ == 0,
        node.leader_id@ == 0,
        node.role is Follower,
        node@.role matches RoleView::Follower { ticks, .. } && ticks == 0,
        node@.log.len() == 0,
        node@.committed == 0,
        config.min_ticks_before_election@ <= node.election_timeout
            < config.max_ticks_before_election@,
        node.channel.channels@.len() == config.cluster_size,
        node.channel.history().len() == 0,
        node.channel.answers().len() == 0,
        !node.channel.observing,
{
}

/// The messages that a step reports are as many as there are nodes whose inbox
/// gave one.
pub proof fn law_arrivals_are_those_of_the_inboxes<Rng: RngProvider>(
    nodes: Seq<TestNode<Rng>>,
    i: int,
)
    requires
        0 <= i < nodes.len(),
    ensures
        arrivals(latest(nodes)).len() == nodes.len(),
        arrivals(latest(nodes))[i] <==> nodes[i].channel.answers().last() is Some,
{
}

} // verus!
