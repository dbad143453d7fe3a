//! A simulated cluster as its user sees and steers it.
use vstd::prelude::*;

use std::collections::HashMap;

use vstd::string::StringExecFns;
use vstd::utf8::{decode_utf8, encode_utf8, encode_utf8_decode_utf8, encode_utf8_valid_utf8};

use crate::cluster::{
    drained, emptied, handled, handled_all, law_inbox_is_emptied, lemma_same_ids_sorted, position, same_wiring, sends_at,
    starts_as, wired, Cluster, ClusterEvent, ClusterMessage, TestNode,
};
use crate::communication::{
    all_proper, all_sent, carries, kept_of, lemma_carries_nothing, lemma_carries_trans,
    lemma_kept_of_add, proper, Channel, Sent,
};
use crate::logger::{kind_name, kind_name_of, role_name, role_name_of};
use crate::model::{lemma_sends_proper, Effect, NodeModel};
use crate::network::{fed_by, protos_view, read_by, repeated, FaultRate, TestChannel};
use crate::node::Node;
use crate::proto::{entries_view, Message, MessageView, ProtoMessage, ProtoView};
use crate::rng::DefaultRng;
use crate::role::Role;
use crate::storage::Storage;
use crate::text::{
    bytes_of, decimal, decimal_of, law_decimals_are_digits, law_split_adds_a_piece, lossy_text,
    read_lossy, split_of,
};
use crate::wasm_types::{shown_view, ClusterState, NodeState, RaftLogEntry, ShownMessage};

verus! {

broadcast use vstd::std_specs::hash::group_hash_axioms;

/// The messages that are shown for one without addressee: one to each node up
/// to `upto` but its sender `own`.
pub open spec fn shown_to_all(p: ProtoView, own: u64, upto: nat, now: u64) -> Seq<ShownMessage>
    decreases upto,
{
    if upto == 0 {
        Seq::empty()
    } else if upto == own {
        shown_to_all(p, own, (upto - 1) as nat, now)
    } else {
        shown_to_all(p, own, (upto - 1) as nat, now).push(shown_to(p, upto as u64, now))
    }
}

/// The message that is shown for `p` on its way to `to`.
pub open spec fn shown_to(p: ProtoView, to: u64, now: u64) -> ShownMessage {
    ShownMessage {
        from: p.from,
        to,
        msg_type: kind_name_of(p.msg_type),
        term: p.term,
        timestamp: now,
    }
}

/// The messages that are shown for `p`, sent by node `own` of `size` nodes.
pub open spec fn shown_for(p: ProtoView, own: u64, size: nat, now: u64) -> Seq<ShownMessage> {
    if p.to == 0 {
        shown_to_all(p, own, size, now)
    } else {
        seq![shown_to(p, p.to, now)]
    }
}

/// The messages that are shown for what node `own` of `size` nodes sent: one
/// for each node that it goes to.
pub open spec fn shown_of(sent: Sent, own: u64, size: nat, now: u64) -> Seq<ShownMessage> {
    match sent {
        Sent::To(p) => seq![shown_to(p, p.to, now)],
        Sent::All(p) => shown_to_all(p, own, size, now),
    }
}

/// The messages that are shown for all that node `own` sent, in order.
pub open spec fn shown_of_all(sent: Seq<Sent>, own: u64, size: nat, now: u64) -> Seq<ShownMessage>
    decreases sent.len(),
{
    if sent.len() == 0 {
        Seq::empty()
    } else {
        shown_of(sent[0], own, size, now) + shown_of_all(sent.drop_first(), own, size, now)
    }
}

/// How many copies of a broadcast stand at the start of `length` messages that
/// a channel kept.
pub open spec fn copies(size: nat, length: nat) -> nat {
    if 2 <= size <= length + 1 {
        (size - 1) as nat
    } else {
        length
    }
}

/// The messages that are shown for those that the channel of node `own` kept,
/// in which a broadcast stands once for each node that it goes to.
pub open spec fn shown_kept(kept: Seq<ProtoView>, own: u64, size: nat, now: u64) -> Seq<ShownMessage>
    decreases kept.len(),
{
    if kept.len() == 0 {
        Seq::empty()
    } else if kept[0].to == 0 {
        shown_to_all(kept[0], own, size, now) + shown_kept(
            kept.skip(copies(size, kept.len()) as int),
            own,
            size,
            now,
        )
    } else {
        seq![shown_to(kept[0], kept[0].to, now)] + shown_kept(kept.skip(1), own, size, now)
    }
}

/// What the channel of a node of `size` nodes keeps for observers.
pub open spec fn usually_kept(sent: Sent, size: nat) -> Seq<ProtoView> {
    match sent {
        Sent::To(p) => seq![p],
        Sent::All(p) => repeated(p, (size - 1) as nat),
    }
}

/// What is shown for what a channel kept is what is shown for what was sent.
proof fn lemma_shown_kept(
    channel: TestChannel<DefaultRng>,
    sent: Seq<Sent>,
    own: u64,
    size: nat,
    now: u64,
)
    requires
        forall|s: Sent| #[trigger] channel.keeps(s) == usually_kept(s, size),
        all_proper(sent),
        1 <= own <= size,
    ensures
        shown_kept(kept_of(channel, sent), own, size, now) == shown_of_all(sent, own, size, now),
    decreases sent.len(),
{
    if sent.len() > 0 {
        let first = sent[0];
        let rest = sent.drop_first();
        assert(sent =~= seq![first] + rest);
        lemma_kept_of_add(channel, seq![first], rest);
        reveal_with_fuel(kept_of, 2);
        assert(seq![first].drop_last() =~= Seq::<Sent>::empty());
        assert(kept_of(channel, seq![first]) =~= channel.keeps(first));
        let others = kept_of(channel, rest);
        let all = kept_of(channel, sent);
        assert(all == channel.keeps(first) + others);
        assert forall|i: int| 0 <= i < rest.len() implies proper(#[trigger] rest[i]) by {
            assert(proper(sent[i + 1]));
        }
        lemma_shown_kept(channel, rest, own, size, now);
        assert(proper(sent[0]));
        match first {
            Sent::To(p) => {
                assert(all[0] == p);
                assert(all.skip(1) =~= others);
            },
            Sent::All(p) => {
                if size == 1 {
                    assert(all =~= others);
                    reveal_with_fuel(shown_to_all, 2);
                    assert(shown_to_all(p, own, 1, now) =~= Seq::<ShownMessage>::empty());
                    assert(shown_of_all(sent, own, size, now) =~= shown_of_all(
                        rest,
                        own,
                        size,
                        now,
                    ));
                } else {
                    assert(all[0] == p);
                    assert(copies(size, all.len()) == size - 1);
                    assert(all.skip(size - 1) =~= others);
                }
            },
        }
    }
}

/// The number of messages that wait for each node, with one more for each of
/// `messages`.
pub open spec fn counted(pending: Map<u64, u64>, messages: Seq<ShownMessage>) -> Map<u64, u64>
    decreases messages.len(),
{
    if messages.len() == 0 {
        pending
    } else {
        let before = counted(pending, messages.drop_last());
        let to = messages.last().to;
        before.insert(to, one_more(waiting(before, to)))
    }
}

/// The number of messages that wait for `id`.
pub open spec fn waiting(pending: Map<u64, u64>, id: u64) -> u64 {
    if pending.dom().contains(id) {
        pending[id]
    } else {
        0
    }
}

/// One more, as far as can be counted.
pub open spec fn one_more(n: u64) -> u64 {
    if n < u64::MAX {
        (n + 1) as u64
    } else {
        n
    }
}

proof fn lemma_counted_add(pending: Map<u64, u64>, a: Seq<ShownMessage>, b: Seq<ShownMessage>)
    ensures
        counted(pending, a + b) == counted(counted(pending, a), b),
    decreases b.len(),
{
    if b.len() == 0 {
        assert(a + b =~= a);
    } else {
        assert((a + b).drop_last() =~= a + b.drop_last());
        lemma_counted_add(pending, a, b.drop_last());
    }
}

/// The text by which a listener is told of a message.
pub open spec fn notice_of(m: ShownMessage) -> Seq<char> {
    "message:"@ + decimal_of(m.from as nat) + ":"@ + decimal_of(m.to as nat) + ":"@ + m.msg_type
}

/// The text by which a listener is told of a message.
pub fn notice(m: &ClusterMessage) -> (r: String)
    ensures
        r@ == notice_of(m@),
{
    let mut s = "message:".to_owned();
    let from = decimal(m.from);
    s.append(from.as_str());
    s.append(":");
    let to = decimal(m.to);
    s.append(to.as_str());
    s.append(":");
    s.append(m.msg_type.as_str());
    s
}

/// A simulated cluster, and what its user has seen of it.
pub struct WasmCluster {
    pub cluster: Cluster<DefaultRng>,
    pub is_running: bool,
    pub is_paused: bool,
    /// How many messages wait for each node while the cluster is paused
    pub pending_messages: HashMap<u64, u64>,
    /// What was sent and not yet shown
    pub message_buffer: Vec<ClusterMessage>,
}

/// `b` is the node `a`, apart from what its channel keeps for observers.
pub open spec fn same_but_observed(a: TestNode<DefaultRng>, b: TestNode<DefaultRng>) -> bool {
    b == (Node { channel: TestChannel { observed: b.channel.observed, ..a.channel }, ..a })
}

/// `after` is what came of the node `before` by `effect`, whatever its channel
/// keeps for observers.
pub open spec fn advanced(
    before: TestNode<DefaultRng>,
    after: TestNode<DefaultRng>,
    effect: Effect,
) -> bool {
    &&& after@ == effect.node
    &&& after.id == before.id
    &&& after.config == before.config
    &&& after.channel.history() == before.channel.history() + all_sent(effect.sent)
    &&& after.channel.answers() == before.channel.answers()
    &&& after.channel.wiring() == before.channel.wiring()
    &&& before.channel.is_faithful() ==> after.channel.is_faithful()
    &&& after.drew_when_due(&before)
    &&& forall|id: u64| #[trigger] after.channel.reaches(id) == before.channel.reaches(id)
    &&& after.election_timeout == before.election_timeout || after@.min_timeout
        <= after.election_timeout < after@.max_timeout
}

/// `after` is what came of the node `before` by a tick, unless it is paused.
pub open spec fn ticked_shown(
    before: TestNode<DefaultRng>,
    after: TestNode<DefaultRng>,
    paused: Set<u64>,
) -> bool {
    if paused.contains(before.id@) {
        after == before
    } else {
        advanced(before, after, before@.tick(after.election_timeout))
    }
}

/// `after` is what came of the node `before` when its inbox was emptied,
/// unless it is paused.
pub open spec fn drained_shown(
    before: TestNode<DefaultRng>,
    after: TestNode<DefaultRng>,
    paused: Set<u64>,
) -> bool {
    if paused.contains(before.id@) {
        after == before
    } else {
        exists|mid: TestNode<DefaultRng>|
            #![trigger drained(before, mid, paused)]
            drained(before, mid, paused) && same_but_observed(mid, after)
    }
}

/// The nodes `after` are what came of the nodes `before` by a tick.
pub open spec fn all_ticked_shown(
    before: Seq<TestNode<DefaultRng>>,
    after: Seq<TestNode<DefaultRng>>,
    paused: Set<u64>,
) -> bool {
    &&& after.len() == before.len()
    &&& forall|i: int|
        0 <= i < before.len() ==> ticked_shown(before[i], #[trigger] after[i], paused)
}

/// The nodes `after` are what came of the nodes `before` when they emptied
/// their inboxes.
pub open spec fn all_drained_shown(
    before: Seq<TestNode<DefaultRng>>,
    after: Seq<TestNode<DefaultRng>>,
    paused: Set<u64>,
) -> bool {
    &&& after.len() == before.len()
    &&& forall|i: int|
        0 <= i < before.len() ==> drained_shown(before[i], #[trigger] after[i], paused)
}

/// What was handed to the channel of the node `before` until it was `after`.
pub open spec fn newly_sent(before: TestNode<DefaultRng>, after: TestNode<DefaultRng>) -> Seq<Sent> {
    after.channel.history().skip(before.channel.history().len() as int)
}

/// What is shown of what the node `before` of `size` nodes sent until it was
/// `after`.
pub open spec fn shown_by(
    before: TestNode<DefaultRng>,
    after: TestNode<DefaultRng>,
    size: nat,
    now: u64,
) -> Seq<ShownMessage> {
    shown_of_all(newly_sent(before, after), before.id@, size, now)
}

/// What is shown of what the first `upto` nodes `before` sent until they were
/// `after`, node by node.
pub open spec fn shown_by_all(
    before: Seq<TestNode<DefaultRng>>,
    after: Seq<TestNode<DefaultRng>>,
    upto: nat,
    now: u64,
) -> Seq<ShownMessage>
    decreases upto,
{
    if upto == 0 {
        Seq::empty()
    } else {
        shown_by_all(before, after, (upto - 1) as nat, now) + shown_by(
            before[upto - 1],
            after[upto - 1],
            before.len(),
            now,
        )
    }
}

proof fn lemma_shown_by_same(
    before: Seq<TestNode<DefaultRng>>,
    a: Seq<TestNode<DefaultRng>>,
    b: Seq<TestNode<DefaultRng>>,
    upto: nat,
    now: u64,
)
    requires
        upto <= before.len(),
        upto <= a.len(),
        upto <= b.len(),
        forall|j: int| 0 <= j < upto ==> #[trigger] a[j] == b[j],
    ensures
        shown_by_all(before, a, upto, now) == shown_by_all(before, b, upto, now),
    decreases upto,
{
    if upto > 0 {
        lemma_shown_by_same(before, a, b, (upto - 1) as nat, now);
        assert(a[upto - 1] == b[upto - 1]);
    }
}

/// Nothing is shown of a node that sent nothing.
proof fn lemma_shown_by_nothing(node: TestNode<DefaultRng>, size: nat, now: u64)
    ensures
        shown_by(node, node, size, now) == Seq::<ShownMessage>::empty(),
{
    assert(newly_sent(node, node) =~= Seq::<Sent>::empty());
}

/// The channel of the node keeps nothing that was not shown, and keeps for
/// observers what is sent.
pub open spec fn observed_usually(node: TestNode<DefaultRng>, size: nat) -> bool {
    &&& node.channel.kept() == Seq::<ProtoView>::empty()
    &&& forall|sent: Sent| #[trigger] node.channel.keeps(sent) == usually_kept(sent, size)
}

/// What a node sent that handled messages, and that its channel kept it.
proof fn lemma_trace_carries(
    before: TestNode<DefaultRng>,
    after: TestNode<DefaultRng>,
    inbox: Seq<ProtoView>,
    trace: Seq<TestNode<DefaultRng>>,
    paused: Set<u64>,
    k: int,
)
    requires
        handled_all(before, after, inbox, trace, paused),
        0 <= k <= inbox.len(),
    ensures
        trace[k].config == before.config,
        carries(trace[k].channel, before.channel, newly_sent(before, trace[k])),
        all_proper(newly_sent(before, trace[k])),
    decreases k,
{
    if k == 0 {
        assert(newly_sent(before, before) =~= Seq::<Sent>::empty());
        lemma_carries_nothing(before.channel);
        assert(all_sent(Seq::empty()) =~= Seq::<Sent>::empty());
    } else {
        lemma_trace_carries(before, after, inbox, trace, paused, k - 1);
        let a = trace[k - 1];
        let b = trace[k];
        let p = inbox[k - 1];
        assert(handled(a, b, p, paused));
        let x = newly_sent(before, a);
        let y = if !paused.contains(p.from) && a.accepts(p.to_message()) {
            all_sent(a@.step(p.to_message(), b.election_timeout).sent)
        } else {
            Seq::empty()
        };
        if !paused.contains(p.from) && a.accepts(p.to_message()) {
            lemma_sends_proper(a@, p.to_message(), Seq::empty(), b.election_timeout);
            assert(carries(b.channel, a.channel, y));
        } else {
            lemma_carries_nothing(a.channel);
            assert(all_sent(Seq::empty()) =~= Seq::<Sent>::empty());
            assert(carries(b.channel, a.channel, y)) by {
                assert(b.channel.history() == a.channel.history());
                assert(b.channel.kept() == a.channel.kept());
                assert forall|id: u64| #[trigger] b.channel.reaches(id) == a.channel.reaches(
                    id,
                ) by {}
                assert forall|s: Sent| #[trigger] b.channel.keeps(s) == a.channel.keeps(s) by {}
            }
        }
        lemma_carries_trans(before.channel, a.channel, b.channel, x, y);
        assert(newly_sent(before, b) =~= x + y);
        assert forall|i: int| 0 <= i < (x + y).len() implies proper(#[trigger] (x + y)[i]) by {
            if i < x.len() {
                assert(proper(x[i]));
            } else {
                assert(proper(y[i - x.len()]));
            }
        }
    }
}

/// What a node sent that emptied its inbox, and that its channel kept it.
proof fn lemma_drained_carries(
    before: TestNode<DefaultRng>,
    after: TestNode<DefaultRng>,
    paused: Set<u64>,
)
    requires
        drained(before, after, paused),
    ensures
        after.config == before.config,
        carries(after.channel, before.channel, newly_sent(before, after)),
        all_proper(newly_sent(before, after)),
{
    let (inbox, trace) = choose|inbox: Seq<ProtoView>, trace: Seq<TestNode<DefaultRng>>| #[trigger]
        handled_all(before, after, inbox, trace, paused) && emptied(
            before.channel.answers(),
            after.channel.answers(),
            inbox,
        );
    lemma_trace_carries(before, after, inbox, trace, paused, inbox.len() as int);
    let last = trace.last();
    assert(newly_sent(before, after) == newly_sent(before, last));
    assert forall|id: u64| #[trigger] after.channel.reaches(id) == before.channel.reaches(id) by {
        assert(last.channel.reaches(id) == before.channel.reaches(id));
    }
    assert forall|s: Sent| #[trigger] after.channel.keeps(s) == before.channel.keeps(s) by {
        assert(last.channel.keeps(s) == before.channel.keeps(s));
    }
}

impl WasmCluster {
    /// Every node can run, knows of as many nodes as there are, and is observed.
    pub open spec fn wf(&self) -> bool {
        &&& self.cluster.wf()
        &&& forall|i: int|
            0 <= i < self.cluster.nodes@.len() ==> {
                &&& (#[trigger] self.cluster.nodes@[i]).config.cluster_size
                    == self.cluster.nodes@.len()
                &&& observed_usually(self.cluster.nodes@[i], self.cluster.nodes@.len())
            }
    }

    /// Nothing but the nodes changed, which are connected as they were, and
    /// what is shown of them.
    pub open spec fn same_controls(&self, before: &Self) -> bool {
        &&& self.is_running == before.is_running
        &&& self.is_paused == before.is_paused
        &&& self.cluster.paused_nodes == before.cluster.paused_nodes
        &&& self.cluster.tick_rate_ms == before.cluster.tick_rate_ms
        &&& self.cluster.message_buffer == before.cluster.message_buffer
        &&& self.cluster.events == before.cluster.events
        &&& self.cluster.rng == before.cluster.rng
        &&& same_wiring(before.cluster.nodes@, self.cluster.nodes@)
    }

    /// `new` messages were noted since `before`; while the cluster is paused
    /// they are counted for those they wait for.
    pub open spec fn noted(&self, before: &Self, new: Seq<ShownMessage>) -> bool {
        &&& shown_view(self.message_buffer@) == shown_view(before.message_buffer@) + new
        &&& self.pending_messages@ == if before.is_paused {
            counted(before.pending_messages@, new)
        } else {
            before.pending_messages@
        }
    }

    /// This is the cluster as it starts: `size` nodes that follow nobody, are
    /// observed and let messages through at `rate`.
    pub open spec fn starts(&self, size: nat, rate: FaultRate) -> bool {
        &&& self.wf()
        &&& self.cluster.is_fresh()
        &&& self.cluster.nodes@.len() == size
        &&& !self.is_running
        &&& !self.is_paused
        &&& self.pending_messages@ == Map::<u64, u64>::empty()
        &&& self.message_buffer@.len() == 0
        &&& wired(self.cluster.nodes@)
        &&& forall|i: int|
            0 <= i < size ==> {
                &&& (#[trigger] self.cluster.nodes@[i])@ == NodeModel::initial(
                    (i + 1) as u64,
                    size as u64,
                    10,
                    20,
                    1,
                    Seq::empty(),
                    self.cluster.nodes@[i].election_timeout,
                )
                &&& 10 <= self.cluster.nodes@[i].election_timeout < 20
                &&& self.cluster.nodes@[i].channel.observing
                &&& sends_at(self.cluster.nodes@[i], rate)
            }
    }

    /// A cluster of `cluster_size` nodes that are observed.
    fn started(cluster_size: u64, fault_rate: FaultRate) -> (r: Self)
        requires
            cluster_size <= usize::MAX,
        ensures
            r.starts(cluster_size as nat, fault_rate),
    {
        let config = Cluster::initial_config(cluster_size);
        let mut cluster = Cluster::from_config(config, fault_rate);
        let ghost fresh = cluster;
        let ghost before = cluster.nodes@;
        let n: usize = cluster.nodes.len();
        let mut i: usize = 0;
        while i < n
            invariant
                i <= n,
                n == before.len(),
                cluster.nodes@.len() == n,
                cluster == (Cluster { nodes: cluster.nodes, ..fresh }),
                forall|j: int| i <= j < n ==> #[trigger] cluster.nodes@[j] == before[j],
                forall|j: int|
                    0 <= j < i ==> #[trigger] cluster.nodes@[j] == (Node {
                        channel: TestChannel { observing: true, ..before[j].channel },
                        ..before[j]
                    }),
            decreases n - i,
        {
            cluster.nodes[i].channel.observe_messages();
            i = i + 1;
        }
        proof {
            assert forall|j: int| 0 <= j < n implies {
                &&& (#[trigger] cluster.nodes@[j]).wf()
                &&& cluster.nodes@[j].id == before[j].id
                &&& cluster.nodes@[j].config.cluster_size == n
                &&& cluster.nodes@[j]@ == before[j]@
                &&& sends_at(cluster.nodes@[j], fault_rate)
                &&& observed_usually(cluster.nodes@[j], n as nat)
            } by {
                assert(starts_as(before[j], j + 1, config));
                assert(sends_at(before[j], fault_rate));
                assert(cluster.nodes@[j].channel.channels@ == before[j].channel.channels@);
                assert(cluster.nodes@[j]@ == before[j]@);
                assert forall|id: u64|
                    1 <= id <= cluster.nodes@[j].config.cluster_size implies #[trigger]
                    cluster.nodes@[j].channel.reaches(id) by {
                    assert(before[j].channel.reaches(id));
                }
                assert(cluster.nodes@[j].channel.kept() =~= Seq::<ProtoView>::empty());
            }
            lemma_same_ids_sorted(before, cluster.nodes@);
            assert forall|i: int, j: int| 0 <= i < n && 0 <= j < n implies {
                let channel = #[trigger] cluster.nodes@[i].channel.channels@[j];
                &&& fed_by(channel.channel) == read_by(cluster.nodes@[j].channel.recv)
                &&& channel.passed() == Seq::<ProtoView>::empty()
            } by {
                assert(cluster.nodes@[j].channel.recv == before[j].channel.recv);
                assert(fed_by(before[i].channel.channels@[j].channel) == read_by(
                    before[j].channel.recv,
                ));
                assert(before[i].channel.channels@[j].passed() == Seq::<ProtoView>::empty());
            }
            assert forall|i: int| 0 <= i < n implies {
                &&& (#[trigger] cluster.nodes@[i]).channel.id == i
                &&& cluster.nodes@[i].channel.channels@.len() == n
                &&& cluster.nodes@[i].channel.history() == Seq::<Sent>::empty()
            } by {
                assert(before[i].channel.id == i);
                assert(before[i].channel.history() == Seq::<Sent>::empty());
            }
            if n >= 1 {
                assert(cluster.world().nodes =~= fresh.world().nodes);
            }
        }
        WasmCluster {
            cluster,
            is_running: false,
            is_paused: false,
            pending_messages: HashMap::new(),
            message_buffer: Vec::new(),
        }
    }

    /// Creates a new cluster with specified size and message drop rate
    pub fn new(cluster_size: u64, drop_rate_percent: u8) -> (r: Self)
        requires
            cluster_size <= usize::MAX,
        ensures
            r.starts(cluster_size as nat, FaultRate(delivery_rate(drop_rate_percent))),
    {
        let drop_rate: u8 = if drop_rate_percent > 100 {
            100
        } else {
            drop_rate_percent
        };
        Self::started(cluster_size, FaultRate(100 - drop_rate))
    }

    /// Notes one message on its way to `to`.
    fn note_one(&mut self, msg: &ProtoMessage, to: u64, now: u64)
        ensures
            final(self).cluster == old(self).cluster,
            final(self).is_running == old(self).is_running,
            final(self).is_paused == old(self).is_paused,
            final(self).noted(old(self), seq![shown_to(msg@, to, now)]),
    {
        let ghost before = *self;
        let shown = ClusterMessage::new(
            msg.from,
            to,
            kind_name(msg.msg_type).to_owned(),
            msg.term,
            now,
        );
        let ghost v = shown@;
        self.message_buffer.push(shown);
        assert(shown_view(self.message_buffer@) =~= shown_view(before.message_buffer@) + seq![v]);
        if self.is_paused {
            let count: u64 = match self.pending_messages.get(&to) {
                Some(n) => *n,
                None => 0,
            };
            let more: u64 = if count < u64::MAX {
                count + 1
            } else {
                count
            };
            self.pending_messages.insert(to, more);
            proof {
                reveal_with_fuel(counted, 2);
                assert(seq![v].drop_last() =~= Seq::<ShownMessage>::empty());
            }
        }
    }

    /// Notes a message that node `own` sent: one to everyone else if it has no
    /// addressee.
    pub fn note_message(&mut self, msg: &ProtoMessage, own: u64, now: u64)
        ensures
            final(self).cluster == old(self).cluster,
            final(self).is_running == old(self).is_running,
            final(self).is_paused == old(self).is_paused,
            final(self).noted(
                old(self),
                shown_for(msg@, own, old(self).cluster.nodes@.len(), now),
            ),
    {
        let ghost before = *self;
        if msg.to != 0 {
            self.note_one(msg, msg.to, now);
            return;
        }
        let size: u64 = self.cluster.nodes.len() as u64;
        let mut recipient: u64 = 0;
        assert(shown_view(self.message_buffer@) =~= shown_view(before.message_buffer@)
            + shown_to_all(msg@, own, 0, now));
        while recipient < size
            invariant
                recipient <= size,
                size == before.cluster.nodes@.len(),
                self.cluster == before.cluster,
                self.is_running == before.is_running,
                self.is_paused == before.is_paused,
                self.noted(&before, shown_to_all(msg@, own, recipient as nat, now)),
            decreases size - recipient,
        {
            recipient = recipient + 1;
            if recipient != own {
                let ghost mid = *self;
                self.note_one(msg, recipient, now);
                proof {
                    let a = shown_to_all(msg@, own, (recipient - 1) as nat, now);
                    let b = seq![shown_to(msg@, recipient, now)];
                    assert(a + b =~= shown_to_all(msg@, own, recipient as nat, now));
                    assert(shown_view(before.message_buffer@) + a + b =~= shown_view(
                        before.message_buffer@,
                    ) + (a + b));
                    lemma_counted_add(before.pending_messages@, a, b);
                }
            }
        }
    }

    /// Notes all that the channel of the node at `index` kept, which it then
    /// keeps no more.
    fn note_sent(&mut self, index: usize, now: u64)
        requires
            index < old(self).cluster.nodes@.len(),
        ensures
            final(self).cluster == (Cluster {
                nodes: final(self).cluster.nodes,
                ..old(self).cluster
            }),
            final(self).is_running == old(self).is_running,
            final(self).is_paused == old(self).is_paused,
            final(self).cluster.nodes@ == old(self).cluster.nodes@.update(
                index as int,
                final(self).cluster.nodes@[index as int],
            ),
            same_but_observed(
                old(self).cluster.nodes@[index as int],
                final(self).cluster.nodes@[index as int],
            ),
            final(self).cluster.nodes@[index as int].channel.observed@.len() == 0,
            final(self).noted(
                old(self),
                shown_kept(
                    old(self).cluster.nodes@[index as int].channel.kept(),
                    old(self).cluster.nodes@[index as int].id@,
                    old(self).cluster.nodes@.len(),
                    now,
                ),
            ),
    {
        let ghost before = *self;
        let own: u64 = self.cluster.nodes[index].id.get();
        let size: usize = self.cluster.nodes.len();
        let sent = self.cluster.nodes[index].channel.take_observed();
        let ghost all = protos_view(sent@);
        let ghost taken = *self;
        let ghost mut done: Seq<ShownMessage> = Seq::empty();
        proof {
            assert(self.cluster.nodes@ =~= before.cluster.nodes@.update(
                index as int,
                self.cluster.nodes@[index as int],
            ));
            assert(all.skip(0) =~= all);
            assert(done + shown_kept(all, own, size as nat, now) =~= shown_kept(
                all,
                own,
                size as nat,
                now,
            ));
            lemma_noted_nothing(before);
        }
        let mut i: usize = 0;
        while i < sent.len()
            invariant
                i <= sent@.len(),
                all == protos_view(sent@),
                size == before.cluster.nodes@.len(),
                taken.cluster.nodes@.len() == size,
                self.cluster == taken.cluster,
                self.is_running == before.is_running,
                self.is_paused == before.is_paused,
                self.noted(&before, done),
                done + shown_kept(all.skip(i as int), own, size as nat, now) == shown_kept(
                    all,
                    own,
                    size as nat,
                    now,
                ),
            decreases sent@.len() - i,
        {
            let ghost so_far = *self;
            let ghost rest = all.skip(i as int);
            let ghost more = shown_for(all[i as int], own, size as nat, now);
            let left: usize = sent.len() - i;
            let step: usize = if sent[i].to != 0 {
                1
            } else if size >= 2 && size - 1 <= left {
                size - 1
            } else {
                left
            };
            self.note_message(&sent[i], own, now);
            proof {
                assert(rest[0] == all[i as int]);
                assert(rest.skip(step as int) =~= all.skip(i + step));
                lemma_noted_add(before, so_far, *self, done, more);
                assert(done + (more + shown_kept(all.skip(i + step), own, size as nat, now))
                    =~= done + more + shown_kept(all.skip(i + step), own, size as nat, now));
                done = done + more;
            }
            i = i + step;
        }
        assert(all.skip(i as int) =~= Seq::<ProtoView>::empty());
        assert(done + Seq::<ShownMessage>::empty() =~= done);
    }

    /// After the node at `index` moved, notes what it sent.
    proof fn lemma_noted_by(
        before: Self,
        mid: Self,
        after: Self,
        index: int,
        sent: Seq<Sent>,
        now: u64,
    )
        requires
            before.wf(),
            0 <= index < before.cluster.nodes@.len(),
            mid == (WasmCluster { cluster: mid.cluster, ..before }),
            mid.cluster.wf(),
            mid.cluster == (Cluster { nodes: mid.cluster.nodes, ..before.cluster }),
            mid.cluster.nodes@ == before.cluster.nodes@.update(index, mid.cluster.nodes@[index]),
            mid.cluster.nodes@[index].id == before.cluster.nodes@[index].id,
            mid.cluster.nodes@[index].config == before.cluster.nodes@[index].config,
            carries(mid.cluster.nodes@[index].channel, before.cluster.nodes@[index].channel, sent),
            all_proper(sent),
            after.cluster == (Cluster { nodes: after.cluster.nodes, ..mid.cluster }),
            after.is_running == mid.is_running,
            after.is_paused == mid.is_paused,
            after.cluster.nodes@ == mid.cluster.nodes@.update(index, after.cluster.nodes@[index]),
            same_but_observed(mid.cluster.nodes@[index], after.cluster.nodes@[index]),
            after.cluster.nodes@[index].channel.observed@.len() == 0,
            after.noted(
                &mid,
                shown_kept(
                    mid.cluster.nodes@[index].channel.kept(),
                    mid.cluster.nodes@[index].id@,
                    mid.cluster.nodes@.len(),
                    now,
                ),
            ),
        ensures
            after.wf(),
            after.same_controls(&before),
            after.cluster.nodes@ == before.cluster.nodes@.update(
                index,
                after.cluster.nodes@[index],
            ),
            after.noted(
                &before,
                shown_by(
                    before.cluster.nodes@[index],
                    after.cluster.nodes@[index],
                    before.cluster.nodes@.len(),
                    now,
                ),
            ),
    {
        let n = before.cluster.nodes@.len();
        let was = before.cluster.nodes@[index];
        let node = mid.cluster.nodes@[index];
        let is = after.cluster.nodes@[index];
        assert(was.wf());
        assert(was.config.cluster_size == n);
        assert(observed_usually(was, n));
        assert(newly_sent(was, is) =~= sent);
        assert(node.channel.kept() =~= kept_of(was.channel, sent));
        lemma_shown_kept(was.channel, sent, was.id@, n, now);
        assert(after.cluster.nodes@ =~= before.cluster.nodes@.update(index, is));
        assert(node.wf());
        assert(is@ == node@);
        assert forall|j: int| 0 <= j < n implies {
            &&& (#[trigger] after.cluster.nodes@[j]).wf()
            &&& after.cluster.nodes@[j].id == before.cluster.nodes@[j].id
            &&& after.cluster.nodes@[j].config.cluster_size == n
            &&& observed_usually(after.cluster.nodes@[j], n)
        } by {
            assert(before.cluster.nodes@[j].wf());
            assert(before.cluster.nodes@[j].config.cluster_size == n);
            if j == index {
                assert forall|id: u64| 1 <= id <= is.config.cluster_size implies #[trigger]
                    is.channel.reaches(id) by {
                    assert(node.channel.reaches(id));
                }
                assert(is.channel.kept() =~= Seq::<ProtoView>::empty());
                assert forall|s: Sent| #[trigger] is.channel.keeps(s) == usually_kept(s, n) by {
                    assert(node.channel.keeps(s) == was.channel.keeps(s));
                }
            }
        }
        lemma_same_ids_sorted(before.cluster.nodes@, after.cluster.nodes@);
    }

    /// A node that is not paused can tick.
    pub open spec fn can_tick(&self) -> bool {
        forall|i: int|
            0 <= i < self.cluster.nodes@.len() && !self.cluster.paused_nodes@.contains(
                (#[trigger] self.cluster.nodes@[i]).id@,
            ) ==> self.cluster.nodes@[i]@.can_tick()
    }

    /// Whether every node that is not paused can tick.
    pub fn is_ready_to_tick(&self) -> (r: bool)
        ensures
            r <==> self.can_tick(),
    {
        let mut i: usize = 0;
        while i < self.cluster.nodes.len()
            invariant
                i <= self.cluster.nodes@.len(),
                forall|j: int|
                    0 <= j < i && !self.cluster.paused_nodes@.contains(
                        (#[trigger] self.cluster.nodes@[j]).id@,
                    ) ==> self.cluster.nodes@[j]@.can_tick(),
            decreases self.cluster.nodes@.len() - i,
        {
            let id: u64 = self.cluster.nodes[i].id.get();
            if !self.cluster.paused_nodes.contains(&id)
                && !self.cluster.nodes[i].is_ready_to_tick() {
                assert(!self.cluster.nodes@[i as int]@.can_tick());
                return false;
            }
            i = i + 1;
        }
        true
    }

    /// This is what came of the cluster `before` by a tick: the nodes that are
    /// not paused ticked, then handled what came in, and what they sent is
    /// shown, that of the ticks first.
    pub open spec fn ticked(&self, before: &Self, now: u64) -> bool {
        let paused = before.cluster.paused_nodes@;
        let n = before.cluster.nodes@.len();
        &&& self.same_controls(before)
        &&& exists|mid: Seq<TestNode<DefaultRng>>|
            #![trigger all_drained_shown(mid, self.cluster.nodes@, paused)]
            {
                &&& all_ticked_shown(before.cluster.nodes@, mid, paused)
                &&& all_drained_shown(mid, self.cluster.nodes@, paused)
                &&& self.noted(
                    before,
                    shown_by_all(before.cluster.nodes@, mid, n, now) + shown_by_all(
                        mid,
                        self.cluster.nodes@,
                        n,
                        now,
                    ),
                )
            }
    }
}

/// What was noted in two steps was noted in one.
proof fn lemma_noted_add(
    a: WasmCluster,
    b: WasmCluster,
    c: WasmCluster,
    first: Seq<ShownMessage>,
    second: Seq<ShownMessage>,
)
    requires
        b.noted(&a, first),
        c.noted(&b, second),
        b.is_paused == a.is_paused,
    ensures
        c.noted(&a, first + second),
{
    assert(shown_view(a.message_buffer@) + first + second =~= shown_view(a.message_buffer@) + (first
        + second));
    lemma_counted_add(a.pending_messages@, first, second);
}

/// A step in which nothing happens notes nothing.
proof fn lemma_noted_nothing(a: WasmCluster)
    ensures
        a.noted(&a, Seq::empty()),
{
    assert(shown_view(a.message_buffer@) + Seq::<ShownMessage>::empty() =~= shown_view(
        a.message_buffer@,
    ));
}

impl WasmCluster {
    /// Ticks the node at `index`, unless it is paused, and notes what it sends.
    fn tick_one(&mut self, index: usize, now: u64)
        requires
            old(self).wf(),
            index < old(self).cluster.nodes@.len(),
            !old(self).cluster.paused_nodes@.contains(old(self).cluster.nodes@[index as int].id@)
                ==> old(self).cluster.nodes@[index as int]@.can_tick(),
        ensures
            final(self).wf(),
            final(self).same_controls(old(self)),
            final(self).cluster.nodes@ == old(self).cluster.nodes@.update(
                index as int,
                final(self).cluster.nodes@[index as int],
            ),
            ticked_shown(
                old(self).cluster.nodes@[index as int],
                final(self).cluster.nodes@[index as int],
                old(self).cluster.paused_nodes@,
            ),
            final(self).noted(
                old(self),
                shown_by(
                    old(self).cluster.nodes@[index as int],
                    final(self).cluster.nodes@[index as int],
                    old(self).cluster.nodes@.len(),
                    now,
                ),
            ),
    {
        let ghost before = *self;
        let ghost was = before.cluster.nodes@[index as int];
        let id: u64 = self.cluster.nodes[index].id.get();
        if self.cluster.paused_nodes.contains(&id) {
            proof {
                lemma_noted_nothing(before);
                lemma_shown_by_nothing(was, before.cluster.nodes@.len(), now);
                assert(self.cluster.nodes@ =~= before.cluster.nodes@.update(index as int, was));
            }
            return;
        }
        self.cluster.tick_at(index);
        let ghost mid = *self;
        let ghost node = mid.cluster.nodes@[index as int];
        self.note_sent(index, now);
        proof {
            let effect = was@.tick(node.election_timeout);
            lemma_sends_proper(was@, MessageView::StartCampaign, Seq::empty(), node.election_timeout);
            Self::lemma_noted_by(before, mid, *self, index as int, all_sent(effect.sent), now);
            lemma_advanced(was, node, self.cluster.nodes@[index as int], effect);
        }
    }

    /// Lets the node at `index` handle what came in, unless it is paused, and
    /// notes what it sends.
    fn drain_one(&mut self, index: usize, now: u64)
        requires
            old(self).wf(),
            index < old(self).cluster.nodes@.len(),
        ensures
            final(self).wf(),
            final(self).same_controls(old(self)),
            final(self).cluster.nodes@ == old(self).cluster.nodes@.update(
                index as int,
                final(self).cluster.nodes@[index as int],
            ),
            drained_shown(
                old(self).cluster.nodes@[index as int],
                final(self).cluster.nodes@[index as int],
                old(self).cluster.paused_nodes@,
            ),
            final(self).noted(
                old(self),
                shown_by(
                    old(self).cluster.nodes@[index as int],
                    final(self).cluster.nodes@[index as int],
                    old(self).cluster.nodes@.len(),
                    now,
                ),
            ),
    {
        let ghost before = *self;
        let ghost was = before.cluster.nodes@[index as int];
        let id: u64 = self.cluster.nodes[index].id.get();
        if self.cluster.paused_nodes.contains(&id) {
            proof {
                lemma_noted_nothing(before);
                lemma_shown_by_nothing(was, before.cluster.nodes@.len(), now);
                assert(self.cluster.nodes@ =~= before.cluster.nodes@.update(index as int, was));
            }
            return;
        }
        self.cluster.drain_at(index);
        let ghost mid = *self;
        let ghost node = mid.cluster.nodes@[index as int];
        self.note_sent(index, now);
        proof {
            lemma_drained_carries(was, node, before.cluster.paused_nodes@);
            Self::lemma_noted_by(before, mid, *self, index as int, newly_sent(was, node), now);
            assert(drained(was, node, before.cluster.paused_nodes@));
        }
    }

    /// Performs a single tick across all nodes, unless the cluster is paused.
    /// Nothing happens either if a node can go no further.
    pub fn tick(&mut self, now: u64)
        requires
            old(self).wf(),
        ensures
            final(self).wf(),
            old(self).is_paused || !old(self).can_tick() ==> *final(self) == *old(self),
            !old(self).is_paused && old(self).can_tick() ==> final(self).ticked(old(self), now),
    {
        if self.is_paused || !self.is_ready_to_tick() {
            return;
        }
        let ghost before = *self;
        let ghost start = self.cluster.nodes@;
        let ghost paused = self.cluster.paused_nodes@;
        let n: usize = self.cluster.nodes.len();
        proof {
            lemma_noted_nothing(before);
        }
        let mut i: usize = 0;
        while i < n
            invariant
                i <= n,
                n == start.len(),
                start == before.cluster.nodes@,
                self.wf(),
                before.can_tick(),
                paused == before.cluster.paused_nodes@,
                self.same_controls(&before),
                self.noted(&before, shown_by_all(start, self.cluster.nodes@, i as nat, now)),
                forall|j: int| i <= j < n ==> #[trigger] self.cluster.nodes@[j] == start[j],
                forall|j: int|
                    0 <= j < i ==> ticked_shown(
                        start[j],
                        #[trigger] self.cluster.nodes@[j],
                        paused,
                    ),
            decreases n - i,
        {
            let ghost so_far = *self;
            assert(so_far.cluster.nodes@[i as int] == start[i as int]);
            self.tick_one(i, now);
            proof {
                let nodes = self.cluster.nodes@;
                assert forall|j: int| 0 <= j < i implies #[trigger] nodes[j]
                    == so_far.cluster.nodes@[j] by {}
                lemma_shown_by_same(start, so_far.cluster.nodes@, nodes, i as nat, now);
                lemma_noted_add(
                    before,
                    so_far,
                    *self,
                    shown_by_all(start, nodes, i as nat, now),
                    shown_by(start[i as int], nodes[i as int], start.len(), now),
                );
                assert forall|j: int| 0 <= j < i + 1 implies ticked_shown(
                    start[j],
                    #[trigger] nodes[j],
                    paused,
                ) by {
                    if j < i {
                        assert(nodes[j] == so_far.cluster.nodes@[j]);
                    }
                }
            }
            i = i + 1;
        }
        let ghost half = *self;
        let ghost mid = self.cluster.nodes@;
        let ghost first = shown_by_all(start, mid, n as nat, now);
        assert(first + shown_by_all(mid, mid, 0, now) =~= first);
        let mut i: usize = 0;
        while i < n
            invariant
                i <= n,
                n == start.len(),
                start == before.cluster.nodes@,
                n == mid.len(),
                self.wf(),
                paused == before.cluster.paused_nodes@,
                self.same_controls(&before),
                self.noted(
                    &before,
                    first + shown_by_all(mid, self.cluster.nodes@, i as nat, now),
                ),
                forall|j: int| i <= j < n ==> #[trigger] self.cluster.nodes@[j] == mid[j],
                forall|j: int|
                    0 <= j < i ==> drained_shown(
                        mid[j],
                        #[trigger] self.cluster.nodes@[j],
                        paused,
                    ),
            decreases n - i,
        {
            let ghost so_far = *self;
            assert(so_far.cluster.nodes@[i as int] == mid[i as int]);
            self.drain_one(i, now);
            proof {
                let nodes = self.cluster.nodes@;
                assert forall|j: int| 0 <= j < i implies #[trigger] nodes[j]
                    == so_far.cluster.nodes@[j] by {}
                lemma_shown_by_same(mid, so_far.cluster.nodes@, nodes, i as nat, now);
                let second = shown_by_all(mid, nodes, i as nat, now);
                let more = shown_by(mid[i as int], nodes[i as int], mid.len(), now);
                lemma_noted_add(before, so_far, *self, first + second, more);
                assert(first + second + more =~= first + (second + more));
                assert forall|j: int| 0 <= j < i + 1 implies drained_shown(
                    mid[j],
                    #[trigger] nodes[j],
                    paused,
                ) by {
                    if j < i {
                        assert(nodes[j] == so_far.cluster.nodes@[j]);
                    }
                }
            }
            i = i + 1;
        }
        assert(all_ticked_shown(start, mid, paused));
        assert(all_drained_shown(mid, self.cluster.nodes@, paused));
    }

    /// Performs a single tick for a specific node when the cluster is paused
    pub fn tick_node(&mut self, node_id: u64, now: u64)
        requires
            old(self).wf(),
        ensures
            final(self).wf(),
            final(self).same_controls(old(self)),
            !old(self).is_paused ==> *final(self) == *old(self),
            old(self).is_paused ==> {
                let k = position(old(self).cluster.nodes@, node_id) as int;
                let n = old(self).cluster.nodes@.len();
                let runs = old(self).cluster.has(node_id)
                    && !old(self).cluster.paused_nodes@.contains(node_id)
                    && old(self).cluster.nodes@[k]@.can_tick();
                &&& !runs ==> {
                    &&& final(self).cluster == old(self).cluster
                    &&& final(self).message_buffer == old(self).message_buffer
                    &&& final(self).pending_messages@ == old(self).pending_messages@.remove(node_id)
                }
                &&& runs ==> {
                    &&& final(self).cluster.nodes@ == old(self).cluster.nodes@.update(
                        k,
                        final(self).cluster.nodes@[k],
                    )
                    &&& exists|mid: TestNode<DefaultRng>|
                        #![trigger drained_shown(mid, final(self).cluster.nodes@[k], old(self).cluster.paused_nodes@)]
                        {
                            let new = shown_by(old(self).cluster.nodes@[k], mid, n, now)
                                + shown_by(mid, final(self).cluster.nodes@[k], n, now);
                            &&& ticked_shown(
                                old(self).cluster.nodes@[k],
                                mid,
                                old(self).cluster.paused_nodes@,
                            )
                            &&& drained_shown(
                                mid,
                                final(self).cluster.nodes@[k],
                                old(self).cluster.paused_nodes@,
                            )
                            &&& shown_view(final(self).message_buffer@) == shown_view(
                                old(self).message_buffer@,
                            ) + new
                            &&& final(self).pending_messages@ == counted(
                                old(self).pending_messages@,
                                new,
                            ).remove(node_id)
                        }
                }
            },
    {
        if !self.is_paused {
            return;
        }
        let ghost before = *self;
        let ghost paused = self.cluster.paused_nodes@;
        let k: usize = self.cluster.find(node_id);
        if k < self.cluster.nodes.len() && !self.cluster.paused_nodes.contains(&node_id)
            && self.cluster.nodes[k].is_ready_to_tick() {
            self.tick_one(k, now);
            let ghost half = *self;
            let ghost mid = self.cluster.nodes@[k as int];
            self.drain_one(k, now);
            proof {
                let n = before.cluster.nodes@.len();
                lemma_noted_add(
                    before,
                    half,
                    *self,
                    shown_by(before.cluster.nodes@[k as int], mid, n, now),
                    shown_by(mid, self.cluster.nodes@[k as int], n, now),
                );
                assert(drained_shown(mid, self.cluster.nodes@[k as int], paused));
                assert(self.cluster.nodes@ =~= before.cluster.nodes@.update(
                    k as int,
                    self.cluster.nodes@[k as int],
                ));
            }
        }
        self.pending_messages.remove(&node_id);
    }
}

/// A node that moved and whose channel then kept nothing more advanced.
proof fn lemma_advanced(
    before: TestNode<DefaultRng>,
    mid: TestNode<DefaultRng>,
    after: TestNode<DefaultRng>,
    effect: Effect,
)
    requires
        mid.became(&before, effect),
        same_but_observed(mid, after),
    ensures
        advanced(before, after, effect),
{
    assert(after@ == mid@);
    assert forall|id: u64| #[trigger] after.channel.reaches(id) == before.channel.reaches(id) by {
        assert(mid.channel.reaches(id) == before.channel.reaches(id));
    }
}

/// The rate at which messages get through where `drop_rate` percent of them
/// are to be lost.
pub open spec fn delivery_rate(drop_rate: u8) -> u8 {
    if drop_rate > 100 {
        0
    } else {
        (100 - drop_rate) as u8
    }
}

/// The number of nodes before the first one that leads and is not paused.
pub open spec fn leader_position(nodes: Seq<TestNode<DefaultRng>>, paused: Set<u64>) -> nat
    decreases nodes.len(),
{
    if nodes.len() == 0 || (nodes[0].role is Leader && !paused.contains(nodes[0].id@)) {
        0
    } else {
        1 + leader_position(nodes.drop_first(), paused)
    }
}

proof fn lemma_leader_position(nodes: Seq<TestNode<DefaultRng>>, paused: Set<u64>, k: int)
    requires
        0 <= k <= nodes.len(),
        forall|j: int|
            0 <= j < k ==> !((#[trigger] nodes[j]).role is Leader && !paused.contains(
                nodes[j].id@,
            )),
        k == nodes.len() || (nodes[k].role is Leader && !paused.contains(nodes[k].id@)),
    ensures
        leader_position(nodes, paused) == k,
    decreases nodes.len(),
{
    if k > 0 {
        let rest = nodes.drop_first();
        assert(!(nodes[0].role is Leader && !paused.contains(nodes[0].id@)));
        assert forall|j: int| 0 <= j < k - 1 implies !((#[trigger] rest[j]).role is Leader
            && !paused.contains(rest[j].id@)) by {
            assert(!(nodes[j + 1].role is Leader && !paused.contains(nodes[j + 1].id@)));
        }
        lemma_leader_position(rest, paused, k - 1);
    }
}

/// What a submitted key and value are recorded as.
pub open spec fn pair_text(key: Seq<char>, value: Seq<char>) -> Seq<char> {
    key + ":"@ + value
}

/// What was submitted is shown as it was: the bytes recorded for a key and a
/// value are read back as the two with a colon between them.
pub proof fn law_submitted_pair_is_shown(key: Seq<char>, value: Seq<char>)
    ensures
        vstd::utf8::valid_utf8(encode_utf8(pair_text(key, value))),
        decode_utf8(encode_utf8(pair_text(key, value))) == pair_text(key, value),
{
    encode_utf8_valid_utf8(pair_text(key, value));
    encode_utf8_decode_utf8(pair_text(key, value));
}

/// The role that is shown of a node: a paused one counts as crashed.
pub open spec fn shown_role(node: NodeModel, paused: bool) -> Seq<char> {
    if paused {
        "Crashed"@
    } else {
        role_name_of(node.role)
    }
}

/// `state` is what is shown of `node`.
pub open spec fn shows_node(state: NodeState, node: NodeModel, paused: bool, pending: u64) -> bool {
    &&& state.id == node.id
    &&& state.role@ == shown_role(node, paused)
    &&& state.term == node.term
    &&& state.leader_id == node.leader_id
    &&& state.voted_for == node.voted_for
    &&& state.paused == paused
    &&& state.last_log_index == node.log.len()
    &&& state.committed_index == node.committed
    &&& state.pending_count == pending
}

/// `shown` is what is shown of the `i`th entry of the log of `node`.
pub open spec fn shows_entry(shown: RaftLogEntry, node: NodeModel, i: int) -> bool {
    &&& shown.index == node.log[i].index
    &&& shown.term == node.log[i].term
    &&& shown.data@ == lossy_text(node.log[i].data)
    &&& vstd::utf8::valid_utf8(node.log[i].data) ==> shown.data@ == decode_utf8(node.log[i].data)
    &&& shown.is_committed <==> i + 1 <= node.committed
}

impl WasmCluster {
    /// Starts the cluster simulation and says at which rate it is to tick.
    pub fn start(&mut self) -> (r: u64)
        ensures
            *final(self) == (WasmCluster { is_running: true, ..*old(self) }),
            r == old(self).cluster.tick_rate_ms,
    {
        self.is_running = true;
        self.cluster.tick_rate_ms
    }

    /// Stops the cluster simulation
    pub fn stop(&mut self)
        ensures
            *final(self) == (WasmCluster { is_running: false, ..*old(self) }),
    {
        self.is_running = false;
    }

    /// Pauses the entire cluster (no new messages sent, but existing messages are preserved)
    pub fn pause_cluster(&mut self)
        ensures
            *final(self) == (WasmCluster { is_paused: true, ..*old(self) }),
    {
        self.is_paused = true;
    }

    /// Resumes the cluster
    pub fn resume_cluster(&mut self)
        ensures
            *final(self) == (WasmCluster {
                is_paused: false,
                pending_messages: final(self).pending_messages,
                ..*old(self)
            }),
            final(self).pending_messages@ == Map::<u64, u64>::empty(),
    {
        self.is_paused = false;
        self.pending_messages.clear();
    }

    /// Toggles cluster paused state
    pub fn toggle_cluster_paused(&mut self)
        ensures
            *final(self) == (WasmCluster {
                is_paused: !old(self).is_paused,
                pending_messages: final(self).pending_messages,
                ..*old(self)
            }),
            final(self).pending_messages@ == if old(self).is_paused {
                Map::<u64, u64>::empty()
            } else {
                old(self).pending_messages@
            },
    {
        self.is_paused = !self.is_paused;
        if !self.is_paused {
            self.pending_messages.clear();
        }
    }

    /// Gets cluster paused state
    pub fn is_cluster_paused(&self) -> (r: bool)
        ensures
            r == self.is_paused,
    {
        self.is_paused
    }

    /// Sets the tick interval in milliseconds, and says whether a running
    /// timer is to be set anew.
    pub fn set_tick_rate(&mut self, rate_ms: u64) -> (r: bool)
        ensures
            *final(self) == (WasmCluster {
                cluster: Cluster { tick_rate_ms: rate_ms, ..old(self).cluster },
                ..*old(self)
            }),
            r == old(self).is_running,
    {
        self.cluster.tick_rate_ms = rate_ms;
        self.is_running
    }

    /// Gets current tick rate in milliseconds
    pub fn get_tick_rate(&self) -> (r: u64)
        ensures
            r == self.cluster.tick_rate_ms,
    {
        self.cluster.tick_rate_ms
    }

    /// Pauses/kills a specific node
    pub fn pause_node(&mut self, node_id: u64)
        requires
            old(self).wf(),
        ensures
            final(self).wf(),
            final(self).cluster.paused_nodes@ == old(self).cluster.paused_nodes@.insert(node_id),
            final(self).cluster.events@ == if old(self).cluster.paused_nodes@.contains(node_id) {
                old(self).cluster.events@
            } else {
                old(self).cluster.events@.push(ClusterEvent::NodePaused { node_id })
            },
            *final(self) == (WasmCluster {
                cluster: Cluster {
                    paused_nodes: final(self).cluster.paused_nodes,
                    events: final(self).cluster.events,
                    ..old(self).cluster
                },
                ..*old(self)
            }),
    {
        self.cluster.pause_node(node_id);
    }

    /// Resumes a paused node
    pub fn resume_node(&mut self, node_id: u64)
        requires
            old(self).wf(),
        ensures
            final(self).wf(),
            final(self).cluster.paused_nodes@ == old(self).cluster.paused_nodes@.remove(node_id),
            final(self).cluster.events@ == if old(self).cluster.paused_nodes@.contains(node_id) {
                old(self).cluster.events@.push(ClusterEvent::NodeResumed { node_id })
            } else {
                old(self).cluster.events@
            },
            *final(self) == (WasmCluster {
                cluster: Cluster {
                    paused_nodes: final(self).cluster.paused_nodes,
                    events: final(self).cluster.events,
                    ..old(self).cluster
                },
                ..*old(self)
            }),
    {
        self.cluster.resume_node(node_id);
    }

    /// Toggles node paused state
    pub fn toggle_node(&mut self, node_id: u64)
        requires
            old(self).wf(),
        ensures
            final(self).wf(),
            final(self).cluster.paused_nodes@ == crate::cluster::toggled(
                old(self).cluster.paused_nodes@,
                node_id,
            ),
            final(self).cluster.events@ == old(self).cluster.events@.push(
                if old(self).cluster.paused_nodes@.contains(node_id) {
                    ClusterEvent::NodeResumed { node_id }
                } else {
                    ClusterEvent::NodePaused { node_id }
                },
            ),
            *final(self) == (WasmCluster {
                cluster: Cluster {
                    paused_nodes: final(self).cluster.paused_nodes,
                    events: final(self).cluster.events,
                    ..old(self).cluster
                },
                ..*old(self)
            }),
    {
        self.cluster.toggle_node(node_id);
    }

    /// Gets only new messages since last call
    pub fn get_new_messages(&mut self) -> (r: Vec<ClusterMessage>)
        ensures
            r@ == old(self).message_buffer@,
            final(self).message_buffer@.len() == 0,
            *final(self) == (WasmCluster {
                message_buffer: final(self).message_buffer,
                ..*old(self)
            }),
    {
        let mut out: Vec<ClusterMessage> = Vec::new();
        std::mem::swap(&mut out, &mut self.message_buffer);
        out
    }

    fn node_states(&self) -> (r: Vec<NodeState>)
        ensures
            r@.len() == self.cluster.nodes@.len(),
            forall|i: int|
                0 <= i < r@.len() ==> shows_node(
                    #[trigger] r@[i],
                    self.cluster.nodes@[i]@,
                    self.cluster.paused_nodes@.contains(self.cluster.nodes@[i].id@),
                    waiting(self.pending_messages@, self.cluster.nodes@[i].id@),
                ),
    {
        let mut states: Vec<NodeState> = Vec::new();
        let mut i: usize = 0;
        while i < self.cluster.nodes.len()
            invariant
                i <= self.cluster.nodes@.len(),
                states@.len() == i,
                forall|j: int|
                    0 <= j < i ==> shows_node(
                        #[trigger] states@[j],
                        self.cluster.nodes@[j]@,
                        self.cluster.paused_nodes@.contains(self.cluster.nodes@[j].id@),
                        waiting(self.pending_messages@, self.cluster.nodes@[j].id@),
                    ),
            decreases self.cluster.nodes@.len() - i,
        {
            let node = &self.cluster.nodes[i];
            let id: u64 = node.id.get();
            // Check if node is paused/crashed first
            let paused = self.cluster.paused_nodes.contains(&id);
            let role = if paused {
                "Crashed".to_owned()
            } else {
                role_name(&node.role).to_owned()
            };
            let pending: u64 = match self.pending_messages.get(&id) {
                Some(n) => *n,
                None => 0,
            };
            states.push(
                NodeState::new(
                    id,
                    role,
                    node.term,
                    node.leader_id.to_u64(),
                    node.voted_for.to_u64(),
                    paused,
                    node.storage.store.last_index(),
                    node.storage.committed,
                    pending,
                ),
            );
            i = i + 1;
        }
        states
    }

    /// Gets the state of the cluster, with the messages that are new since the
    /// last call.
    pub fn get_state(&mut self) -> (r: ClusterState)
        ensures
            r.nodes@.len() == old(self).cluster.nodes@.len(),
            forall|i: int|
                0 <= i < r.nodes@.len() ==> shows_node(
                    #[trigger] r.nodes@[i],
                    old(self).cluster.nodes@[i]@,
                    old(self).cluster.paused_nodes@.contains(old(self).cluster.nodes@[i].id@),
                    waiting(old(self).pending_messages@, old(self).cluster.nodes@[i].id@),
                ),
            r.messages@ == old(self).message_buffer@,
            r.tick_rate_ms == old(self).cluster.tick_rate_ms,
            final(self).message_buffer@.len() == 0,
            *final(self) == (WasmCluster {
                message_buffer: final(self).message_buffer,
                ..*old(self)
            }),
    {
        let nodes = self.node_states();
        let messages = self.get_new_messages();
        ClusterState::new(nodes, messages, self.cluster.tick_rate_ms)
    }

    /// Gets all log entries for a specific node, where there is such a node
    pub fn get_node_logs(&self, node_id: u64) -> (r: Option<Vec<RaftLogEntry>>)
        requires
            self.wf(),
        ensures
            r is Some <==> self.cluster.has(node_id),
            r matches Some(shown) ==> {
                let node = self.cluster.nodes@[position(self.cluster.nodes@, node_id) as int]@;
                &&& shown@.len() == node.log.len()
                &&& forall|i: int|
                    0 <= i < shown@.len() ==> shows_entry(#[trigger] shown@[i], node, i)
            },
    {
        let k: usize = self.cluster.find(node_id);
        if k >= self.cluster.nodes.len() {
            return None;
        }
        let node = &self.cluster.nodes[k];
        assert(self.cluster.nodes@[k as int].wf());
        let committed: u64 = node.storage.committed;
        let last_index: u64 = node.storage.store.last_index();
        let mut shown: Vec<RaftLogEntry> = Vec::new();
        let entries = match node.storage.store.entries(1, last_index + 1) {
            Ok(entries) => entries,
            Err(_) => Vec::new(),
        };
        assert(entries_view(entries@) =~= node@.log);
        let mut i: usize = 0;
        while i < entries.len()
            invariant
                i <= entries@.len(),
                entries@.len() < u64::MAX,
                entries_view(entries@) == node@.log,
                committed == node@.committed,
                shown@.len() == i,
                forall|j: int| 0 <= j < i ==> shows_entry(#[trigger] shown@[j], node@, j),
            decreases entries@.len() - i,
        {
            let entry = &entries[i];
            assert(node@.log[i as int] == entry@);
            // Decode data bytes as UTF-8 with fallback
            let data = read_lossy(&entry.data);
            let is_committed = i as u64 + 1 <= committed;
            shown.push(RaftLogEntry::new(entry.index, entry.term, data, is_committed));
            i = i + 1;
        }
        Some(shown)
    }

    fn find_leader(&self) -> (r: usize)
        ensures
            r == leader_position(self.cluster.nodes@, self.cluster.paused_nodes@),
            r <= self.cluster.nodes@.len(),
            r < self.cluster.nodes@.len() ==> self.cluster.nodes@[r as int].role is Leader,
    {
        let mut i: usize = 0;
        while i < self.cluster.nodes.len()
            invariant
                i <= self.cluster.nodes@.len(),
                forall|j: int|
                    0 <= j < i ==> !((#[trigger] self.cluster.nodes@[j]).role is Leader
                        && !self.cluster.paused_nodes@.contains(self.cluster.nodes@[j].id@)),
            decreases self.cluster.nodes@.len() - i,
        {
            let id: u64 = self.cluster.nodes[i].id.get();
            if matches!(self.cluster.nodes[i].role, Role::Leader(_))
                && !self.cluster.paused_nodes.contains(&id) {
                proof {
                    lemma_leader_position(
                        self.cluster.nodes@,
                        self.cluster.paused_nodes@,
                        i as int,
                    );
                }
                return i;
            }
            i = i + 1;
        }
        proof {
            lemma_leader_position(self.cluster.nodes@, self.cluster.paused_nodes@, i as int);
        }
        i
    }

    /// Submits a key-value entry to the leader for replication
    /// Returns true if successful, false if no leader found
    pub fn submit_entry(&mut self, key: &str, value: &str, now: u64) -> (r: bool)
        requires
            old(self).wf(),
        ensures
            final(self).wf(),
            ({
                let k = leader_position(
                    old(self).cluster.nodes@,
                    old(self).cluster.paused_nodes@,
                ) as int;
                &&& r <==> k < old(self).cluster.nodes@.len()
                    && old(self).cluster.nodes@[k]@.can_propose()
                &&& !r ==> *final(self) == *old(self)
                &&& r ==> {
                    &&& final(self).same_controls(old(self))
                    &&& final(self).cluster.nodes@ == old(self).cluster.nodes@.update(
                        k,
                        final(self).cluster.nodes@[k],
                    )
                    &&& advanced(
                        old(self).cluster.nodes@[k],
                        final(self).cluster.nodes@[k],
                        old(self).cluster.nodes@[k]@.submit(encode_utf8(pair_text(key@, value@))),
                    )
                    &&& final(self).noted(
                        old(self),
                        shown_by(
                            old(self).cluster.nodes@[k],
                            final(self).cluster.nodes@[k],
                            old(self).cluster.nodes@.len(),
                            now,
                        ),
                    )
                }
            }),
    {
        let k: usize = self.find_leader();
        if k >= self.cluster.nodes.len() || !self.cluster.nodes[k].is_ready_to_propose() {
            return false;
        }
        let ghost before = *self;
        // Create the entry data as "key:value" format
        let mut text = key.to_owned();
        text.append(":");
        text.append(value);
        let data = bytes_of(text.as_str());
        assert(before.cluster.nodes@[k as int].wf());
        let ghost was = before.cluster.nodes@[k as int];
        let ghost bytes = data@;
        let _ = self.cluster.nodes[k].submit_entry(data);
        let ghost mid = *self;
        let ghost node = mid.cluster.nodes@[k as int];
        proof {
            lemma_moved_wf(before.cluster, mid.cluster, k as int);
        }
        self.note_sent(k, now);
        proof {
            let effect = was@.submit(bytes);
            lemma_sends_proper(was@, MessageView::StartCampaign, bytes, 0);
            Self::lemma_noted_by(before, mid, *self, k as int, all_sent(effect.sent), now);
            lemma_advanced(was, node, self.cluster.nodes@[k as int], effect);
        }
        true
    }

    /// Forces an election by letting a node campaign. It does unless it leads,
    /// is paused, or can go no further; while the cluster is paused nothing
    /// happens.
    pub fn trigger_election(&mut self, node_id: u64, now: u64)
        requires
            old(self).wf(),
        ensures
            final(self).wf(),
            ({
                let k = position(old(self).cluster.nodes@, node_id) as int;
                let campaigns = !old(self).is_paused && old(self).cluster.has(node_id)
                    && !old(self).cluster.paused_nodes@.contains(node_id)
                    && old(self).cluster.nodes@[k]@.can_step(MessageView::StartCampaign);
                &&& !campaigns ==> *final(self) == *old(self)
                &&& campaigns ==> {
                    &&& final(self).same_controls(old(self))
                    &&& final(self).cluster.nodes@ == old(self).cluster.nodes@.update(
                        k,
                        final(self).cluster.nodes@[k],
                    )
                    &&& advanced(
                        old(self).cluster.nodes@[k],
                        final(self).cluster.nodes@[k],
                        old(self).cluster.nodes@[k]@.start_campaign(
                            final(self).cluster.nodes@[k].election_timeout,
                        ),
                    )
                    &&& final(self).noted(
                        old(self),
                        shown_by(
                            old(self).cluster.nodes@[k],
                            final(self).cluster.nodes@[k],
                            old(self).cluster.nodes@.len(),
                            now,
                        ),
                    )
                }
            }),
    {
        let k: usize = self.cluster.find(node_id);
        if self.is_paused || k >= self.cluster.nodes.len()
            || self.cluster.paused_nodes.contains(&node_id) {
            return;
        }
        let ghost before = *self;
        let ghost was = before.cluster.nodes@[k as int];
        assert(was.wf());
        if !self.cluster.nodes[k].is_ready_for(&Message::StartCampaign) {
            return;
        }
        self.cluster.nodes[k].start_campaign();
        let ghost mid = *self;
        let ghost node = mid.cluster.nodes@[k as int];
        proof {
            lemma_moved_wf(before.cluster, mid.cluster, k as int);
        }
        self.note_sent(k, now);
        proof {
            let effect = was@.start_campaign(node.election_timeout);
            assert(effect == was@.step(MessageView::StartCampaign, node.election_timeout));
            lemma_sends_proper(was@, MessageView::StartCampaign, Seq::empty(), node.election_timeout);
            Self::lemma_noted_by(before, mid, *self, k as int, all_sent(effect.sent), now);
            lemma_advanced(was, node, self.cluster.nodes@[k as int], effect);
        }
    }

    /// Resets cluster to initial state, with a network that loses nothing
    pub fn reset(&mut self)
        ensures
            final(self).starts(old(self).cluster.nodes@.len(), FaultRate(100)),
    {
        let size: u64 = self.cluster.nodes.len() as u64;
        *self = Self::started(size, FaultRate(100));
    }
}

/// A cluster stays one that can run when one of its nodes moved.
proof fn lemma_moved_wf(before: Cluster<DefaultRng>, after: Cluster<DefaultRng>, k: int)
    requires
        before.wf(),
        0 <= k < before.nodes@.len(),
        after.nodes@ == before.nodes@.update(k, after.nodes@[k]),
        after.nodes@[k].wf(),
        after.nodes@[k].id == before.nodes@[k].id,
    ensures
        after.wf(),
{
    lemma_same_ids_sorted(before.nodes@, after.nodes@);
    assert forall|j: int| 0 <= j < after.nodes@.len() implies (#[trigger] after.nodes@[j]).wf() by {
        assert(before.nodes@[j].wf());
    }
}

/// A message to all is shown once for each node but its sender, in the order of
/// the nodes, and every other once, to the one it is for. Each is shown with
/// its sender, its term, its kind and the time.
pub proof fn law_each_recipient_is_shown(p: ProtoView, own: u64, size: nat, now: u64)
    requires
        1 <= own,
        size <= u64::MAX,
    ensures
        shown_of(Sent::All(p), own, size, now).len() == if own <= size {
            (size - 1) as nat
        } else {
            size
        },
        forall|i: int|
            0 <= i < shown_of(Sent::All(p), own, size, now).len() ==> {
                let m = #[trigger] shown_of(Sent::All(p), own, size, now)[i];
                &&& m.from == p.from
                &&& m.to == if i + 1 < own {
                    i + 1
                } else {
                    i + 2
                }
                &&& m.term == p.term
                &&& m.msg_type == kind_name_of(p.msg_type)
                &&& m.timestamp == now
            },
        shown_of(Sent::To(p), own, size, now).len() == 1,
        ({
            let m = shown_of(Sent::To(p), own, size, now)[0];
            &&& m.from == p.from
            &&& m.to == p.to
            &&& m.term == p.term
            &&& m.msg_type == kind_name_of(p.msg_type)
            &&& m.timestamp == now
        }),
    decreases size,
{
    if size > 0 {
        law_each_recipient_is_shown(p, own, (size - 1) as nat, now);
    }
}

/// What is sent later is shown later: all that was shown of what was sent
/// before stays, and what is shown of one thing more comes behind it.
pub proof fn law_shown_in_order(sent: Seq<Sent>, more: Sent, own: u64, size: nat, now: u64)
    ensures
        shown_of_all(Seq::empty(), own, size, now).len() == 0,
        shown_of_all(sent.push(more), own, size, now) == shown_of_all(sent, own, size, now)
            + shown_of(more, own, size, now),
    decreases sent.len(),
{
    reveal_with_fuel(shown_of_all, 2);
    if sent.len() == 0 {
        assert(sent.push(more).drop_first() =~= Seq::<Sent>::empty());
        assert(shown_of(more, own, size, now) + Seq::<ShownMessage>::empty() =~= Seq::<
            ShownMessage,
        >::empty() + shown_of(more, own, size, now));
    } else {
        let rest = sent.drop_first();
        assert(sent.push(more).drop_first() =~= rest.push(more));
        law_shown_in_order(rest, more, own, size, now);
        let first = shown_of(sent[0], own, size, now);
        let middle = shown_of_all(rest, own, size, now);
        let last = shown_of(more, own, size, now);
        assert(first + (middle + last) =~= first + middle + last);
    }
}

/// What any of the nodes sent is shown.
pub proof fn law_all_senders_are_shown(
    before: Seq<TestNode<DefaultRng>>,
    after: Seq<TestNode<DefaultRng>>,
    upto: nat,
    now: u64,
    i: int,
    m: ShownMessage,
)
    requires
        0 <= i < upto,
        shown_of_all(
            after[i].channel.history().skip(before[i].channel.history().len() as int),
            before[i].id@,
            before.len(),
            now,
        ).contains(m),
    ensures
        shown_by_all(before, after, upto, now).contains(m),
    decreases upto,
{
    let earlier = shown_by_all(before, after, (upto - 1) as nat, now);
    let own = shown_by(before[upto - 1], after[upto - 1], before.len(), now);
    let all = shown_by_all(before, after, upto, now);
    assert(all == earlier + own);
    if i == upto - 1 {
        let k = own.index_of(m);
        assert(own.contains(m));
        assert(all[earlier.len() + k] == m);
    } else {
        law_all_senders_are_shown(before, after, (upto - 1) as nat, now, i, m);
        let k = earlier.index_of(m);
        assert(all[k] == m);
    }
}

/// How many of `messages` are for `id`.
pub open spec fn number_for(messages: Seq<ShownMessage>, id: u64) -> nat {
    messages.filter(|m: ShownMessage| m.to == id).len()
}

/// While the cluster is paused, as many messages more wait for each node as
/// were sent to it, as far as can be counted.
pub proof fn law_waiting_messages_are_counted(
    pending: Map<u64, u64>,
    messages: Seq<ShownMessage>,
    id: u64,
)
    ensures
        waiting(pending, id) + number_for(messages, id) <= u64::MAX ==> waiting(
            counted(pending, messages),
            id,
        ) == waiting(pending, id) + number_for(messages, id),
        waiting(pending, id) + number_for(messages, id) > u64::MAX ==> waiting(
            counted(pending, messages),
            id,
        ) == u64::MAX,
    decreases messages.len(),
{
    let for_id = |m: ShownMessage| m.to == id;
    reveal(Seq::filter);
    if messages.len() > 0 {
        law_waiting_messages_are_counted(pending, messages.drop_last(), id);
        assert(messages.filter(for_id).len() == messages.drop_last().filter(for_id).len() + if
            messages.last().to == id {
            1int
        } else {
            0
        });
    }
}

/// An entry goes to the first node that leads and is not paused, and to nobody
/// where there is none.
pub proof fn law_first_running_leader_is_asked(
    nodes: Seq<TestNode<DefaultRng>>,
    paused: Set<u64>,
)
    ensures
        leader_position(nodes, paused) <= nodes.len(),
        leader_position(nodes, paused) < nodes.len() ==> {
            let leader = nodes[leader_position(nodes, paused) as int];
            leader.role is Leader && !paused.contains(leader.id@)
        },
        forall|j: int|
            0 <= j < leader_position(nodes, paused) ==> (#[trigger] nodes[j]).role !is Leader
                || paused.contains(nodes[j].id@),
    decreases nodes.len(),
{
    if nodes.len() > 0 && !(nodes[0].role is Leader && !paused.contains(nodes[0].id@)) {
        let rest = nodes.drop_first();
        law_first_running_leader_is_asked(rest, paused);
        assert forall|j: int| 0 <= j < leader_position(nodes, paused) implies (
        #[trigger] nodes[j]).role !is Leader || paused.contains(nodes[j].id@) by {
            if j > 0 {
                assert(rest[j - 1].role !is Leader || paused.contains(rest[j - 1].id@));
            }
        }
    }
}

/// What is lost and what gets through make up all there is.
pub proof fn law_rates_add_up(drop_rate: u8)
    ensures
        drop_rate <= 100 ==> delivery_rate(drop_rate) + drop_rate == 100,
        drop_rate > 100 ==> delivery_rate(drop_rate) == 0,
{
}

/// A cluster starts with nodes that follow nobody, are in no term and hold
/// nothing, with the ids from 1 on. None is paused, nothing was sent, and
/// nothing is shown.
pub proof fn law_clusters_start_blank(c: WasmCluster, size: nat, rate: FaultRate, i: int)
    requires
        c.starts(size, rate),
        0 <= i < size,
        size <= u64::MAX,
    ensures
        c.cluster.nodes@.len() == size,
        c.cluster.paused_nodes@.len() == 0,
        c.cluster.tick_rate_ms == 500,
        c.message_buffer@.len() == 0,
        c.pending_messages@.dom().len() == 0,
        !c.is_paused,
        !c.is_running,
        ({
            let node = c.cluster.nodes@[i];
            &&& node@.id == i + 1
            &&& node@.cluster_size == size
            &&& node.role is Follower
            &&& node.term == 0
            &&& node.leader_id@ == 0
            &&& node.voted_for@ == 0
            &&& node@.log.len() == 0
            &&& node@.committed == 0
            &&& node@.min_timeout == 10
            &&& node@.max_timeout == 20
            &&& node@.heartbeat_interval == 1
            &&& node.channel.history().len() == 0
            &&& forall|j: int|
                0 <= j < size ==> (#[trigger] node.channel.channels@[j]).drop_rate == rate
        }),
{
    assert(sends_at(c.cluster.nodes@[i], rate));
    assert(c.cluster.nodes@[i].channel.channels@.len() == size);
}

/// In a tick of the cluster a paused node stays as it is, and a node that was
/// sent nothing ends in the state that its own tick tells, having sent what
/// that tick tells.
pub proof fn law_tick_of_the_cluster(
    before: WasmCluster,
    after: WasmCluster,
    now: u64,
    i: int,
)
    requires
        after.ticked(&before, now),
        0 <= i < before.cluster.nodes@.len(),
    ensures
        after.cluster.nodes@.len() == before.cluster.nodes@.len(),
        after.is_paused == before.is_paused,
        after.is_running == before.is_running,
        after.cluster.paused_nodes == before.cluster.paused_nodes,
        ({
            let was = before.cluster.nodes@[i];
            let is = after.cluster.nodes@[i];
            let paused = before.cluster.paused_nodes@;
            &&& paused.contains(was.id@) ==> is == was
            &&& !paused.contains(was.id@) && is.channel.answers() == was.channel.answers().push(
                None,
            ) ==> {
                let effect = was@.tick(is.election_timeout);
                &&& is@ == effect.node
                &&& is.channel.history() == was.channel.history() + all_sent(effect.sent)
            }
        }),
{
    let paused = before.cluster.paused_nodes@;
    let n = before.cluster.nodes@.len();
    let mid = choose|mid: Seq<TestNode<DefaultRng>>|
        #![trigger all_drained_shown(mid, after.cluster.nodes@, paused)]
        {
            &&& all_ticked_shown(before.cluster.nodes@, mid, paused)
            &&& all_drained_shown(mid, after.cluster.nodes@, paused)
            &&& after.noted(
                &before,
                shown_by_all(before.cluster.nodes@, mid, n, now) + shown_by_all(
                    mid,
                    after.cluster.nodes@,
                    n,
                    now,
                ),
            )
        };
    let was = before.cluster.nodes@[i];
    let half = mid[i];
    let is = after.cluster.nodes@[i];
    assert(ticked_shown(was, half, paused));
    assert(drained_shown(half, is, paused));
    if !paused.contains(was.id@) {
        let end = choose|end: TestNode<DefaultRng>|
            #![trigger drained(half, end, paused)]
            drained(half, end, paused) && same_but_observed(end, is);
        let r = law_inbox_is_emptied(half, end, paused);
        assert(is@ == end@);
    }
}

/// What is shown of a node is what holds of it: its own id, term, leader, vote,
/// log length, committed index and the number of messages that wait for it. A
/// paused node is shown as crashed, and every other in its role.
pub proof fn law_nodes_are_shown_as_they_are(
    state: NodeState,
    node: NodeModel,
    paused: bool,
    pending: u64,
)
    requires
        shows_node(state, node, paused, pending),
    ensures
        state.id == node.id,
        state.term == node.term,
        state.leader_id == node.leader_id,
        state.voted_for == node.voted_for,
        state.last_log_index == node.log.len(),
        state.committed_index == node.committed,
        state.pending_count == pending,
        state.paused <==> paused,
        paused ==> state.role@ == "Crashed"@,
        !paused && node.role is Leader ==> state.role@ == "Leader"@,
        !paused && node.role is Candidate ==> state.role@ == "Candidate"@,
        !paused && node.role is Follower ==> state.role@ == "Follower"@,
{
}

/// What is shown of an entry is what the log holds of it; it is shown as
/// committed exactly where the committed index has reached it.
pub proof fn law_entries_are_shown_as_they_are(shown: RaftLogEntry, node: NodeModel, i: int)
    requires
        0 <= i < node.log.len(),
        shows_entry(shown, node, i),
    ensures
        shown.index == node.log[i].index,
        shown.term == node.log[i].term,
        vstd::utf8::valid_utf8(node.log[i].data) ==> shown.data@ == decode_utf8(node.log[i].data),
        shown.is_committed <==> i < node.committed,
{
}

/// What is submitted is a key and a value with a colon between them.
pub proof fn law_pairs_are_written_with_a_colon(key: Seq<char>, value: Seq<char>)
    requires
        !key.contains(':'),
        !value.contains(':'),
    ensures
        split_of(pair_text(key, value), ':') == seq![key, value],
{
    reveal_strlit(":");
    assert(pair_text(key, value) =~= key.push(':') + value);
    law_split_adds_a_piece(key, key, ':');
    law_split_adds_a_piece(key, value, ':');
    assert(seq![key].push(value) =~= seq![key, value]);
}

/// A listener is told who sent what to whom.
pub proof fn law_notices_tell_who_sent_what(m: ShownMessage)
    requires
        !m.msg_type.contains(':'),
    ensures
        split_of(notice_of(m), ':') == seq![
            "message"@,
            decimal_of(m.from as nat),
            decimal_of(m.to as nat),
            m.msg_type,
        ],
{
    reveal_strlit(":");
    reveal_strlit("message:");
    reveal_strlit("message");
    let word = "message"@;
    let from = decimal_of(m.from as nat);
    let to = decimal_of(m.to as nat);
    law_decimals_are_digits(m.from as nat);
    law_decimals_are_digits(m.to as nat);
    assert(!from.contains(':')) by {
        assert forall|j: int| 0 <= j < from.len() implies from[j] != ':' by {}
    }
    assert(!to.contains(':')) by {
        assert forall|j: int| 0 <= j < to.len() implies to[j] != ':' by {}
    }
    assert(!word.contains(':'));
    law_split_adds_a_piece(word, word, ':');
    law_split_adds_a_piece(word, from, ':');
    let a = word.push(':') + from;
    law_split_adds_a_piece(a, to, ':');
    let b = a.push(':') + to;
    law_split_adds_a_piece(b, m.msg_type, ':');
    assert(b.push(':') + m.msg_type =~= notice_of(m));
    assert(seq![word].push(from).push(to).push(m.msg_type) =~= seq![word, from, to, m.msg_type]);
}

/// What is noted comes behind what was noted before, and is counted as waiting
/// only while the cluster is paused.
pub proof fn law_notes_are_kept_in_order(
    before: WasmCluster,
    after: WasmCluster,
    new: Seq<ShownMessage>,
    i: int,
)
    requires
        after.noted(&before, new),
    ensures
        after.message_buffer@.len() == before.message_buffer@.len() + new.len(),
        0 <= i < before.message_buffer@.len() ==> after.message_buffer@[i]@
            == before.message_buffer@[i]@,
        0 <= i < new.len() ==> after.message_buffer@[before.message_buffer@.len() + i]@ == new[i],
        !before.is_paused ==> after.pending_messages@ == before.pending_messages@,
        before.is_paused ==> after.pending_messages@ == counted(before.pending_messages@, new),
{
    let was = shown_view(before.message_buffer@);
    let is = shown_view(after.message_buffer@);
    assert(is == was + new);
    assert(is.len() == after.message_buffer@.len());
    if 0 <= i < was.len() {
        assert(is[i] == was[i]);
    }
    if 0 <= i < new.len() {
        assert(is[was.len() + i] == new[i]);
    }
}

/// A cluster whose nodes have terms and indices left can tick, and so can one
/// in which all others are paused.
pub proof fn law_clusters_can_tick(c: WasmCluster)
    requires
        forall|i: int|
            0 <= i < c.cluster.nodes@.len() ==> c.cluster.paused_nodes@.contains(
                (#[trigger] c.cluster.nodes@[i]).id@,
            ) || (c.cluster.nodes@[i]@.term < u64::MAX && c.cluster.nodes@[i]@.log.len() + 1
                < u64::MAX),
    ensures
        c.can_tick(),
{
}

/// A node advances as is told of it, and what it sent since is what is told,
/// behind all that went before.
pub proof fn law_advance_is_as_told(
    before: TestNode<DefaultRng>,
    after: TestNode<DefaultRng>,
    effect: Effect,
)
    requires
        advanced(before, after, effect),
    ensures
        after@ == effect.node,
        after.id == before.id,
        after.config == before.config,
        after.channel.answers() == before.channel.answers(),
        after.channel.history() == before.channel.history() + all_sent(effect.sent),
        newly_sent(before, after) == all_sent(effect.sent),
{
    assert(newly_sent(before, after) =~= all_sent(effect.sent));
}

/// A message without an addressee is shown as one to all, and every other as
/// one to its addressee.
pub proof fn law_unaddressed_messages_are_for_all(p: ProtoView, own: u64, size: nat, now: u64)
    ensures
        p.to == 0 ==> shown_for(p, own, size, now) == shown_of(Sent::All(p), own, size, now),
        p.to != 0 ==> shown_for(p, own, size, now) == shown_of(Sent::To(p), own, size, now),
{
}

} // verus!
