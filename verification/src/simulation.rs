//! How what a simulated cluster does is a run of the cluster as a state
//! machine.
use vstd::prelude::*;

use crate::cluster::{all_asked, asked, took_arrival, TestNode};
use crate::communication::{Channel, Outgoing};
use crate::model::NodeModel;
use crate::proto::{law_message_round_trip, ProtoView};
use crate::rng::RngProvider;
use crate::world::{addressed, Event, World};

verus! {

/// The nodes as mathematical values.
pub open spec fn models<Rng: RngProvider>(nodes: Seq<TestNode<Rng>>) -> Seq<NodeModel> {
    Seq::new(nodes.len(), |i: int| nodes[i]@)
}

/// One tick of each node, in order, of which the nodes `after` came.
pub open spec fn tick_events<Rng: RngProvider>(after: Seq<TestNode<Rng>>, upto: nat) -> Seq<Event> {
    Seq::new(upto, |i: int| Event::Tick { node: i, timeout: after[i].election_timeout })
}

/// The ticks of the first `upto` nodes, of which each came out as it did.
proof fn lemma_ticks<Rng: RngProvider>(
    w: World,
    before: Seq<TestNode<Rng>>,
    after: Seq<TestNode<Rng>>,
    upto: nat,
)
    requires
        w.nodes == models(before),
        after.len() == before.len(),
        upto <= before.len(),
        forall|i: int| 0 <= i < before.len() ==> (#[trigger] before[i])@.can_tick(),
        forall|i: int|
            0 <= i < before.len() ==> (#[trigger] after[i])@ == before[i]@.tick(
                after[i].election_timeout,
            ).node,
    ensures
        w.allows(tick_events(after, upto)),
        w.after(tick_events(after, upto)).nodes == models(after.take(upto as int) + before.skip(
            upto as int,
        )),
    decreases upto,
{
    let events = tick_events(after, upto);
    if upto == 0 {
        assert(after.take(0) + before.skip(0) =~= before);
    } else {
        lemma_ticks(w, before, after, (upto - 1) as nat);
        let k = upto - 1;
        assert(events.drop_last() =~= tick_events(after, k as nat));
        let mid = w.after(events.drop_last());
        assert(mid.nodes[k] == before[k]@);
        assert(before[k]@.can_tick());
        assert(after[k]@ == before[k]@.tick(after[k].election_timeout).node);
        assert(w.after(events).nodes =~= models(after.take(upto as int) + before.skip(
            upto as int,
        )));
    }
}

/// A tick of all nodes of a simulated cluster is a run of the state machine,
/// in which each node ticks once.
pub proof fn law_tick_is_a_run<Rng: RngProvider>(
    w: World,
    before: Seq<TestNode<Rng>>,
    after: Seq<TestNode<Rng>>,
    upto: nat,
)
    requires
        w.nodes == models(before),
        after.len() == before.len(),
        upto <= before.len(),
        forall|i: int| 0 <= i < before.len() ==> (#[trigger] before[i])@.can_tick(),
        forall|i: int|
            0 <= i < before.len() ==> (#[trigger] after[i]).became(
                &before[i],
                before[i]@.tick(after[i].election_timeout),
            ),
    ensures
        w.allows(tick_events(after, upto)),
        w.after(tick_events(after, upto)).nodes == models(after.take(upto as int) + before.skip(
            upto as int,
        )),
        upto == before.len() ==> w.after(tick_events(after, upto)).nodes == models(after),
{
    assert forall|i: int| 0 <= i < before.len() implies (#[trigger] after[i])@
        == before[i]@.tick(after[i].election_timeout).node by {
        assert(after[i].became(&before[i], before[i]@.tick(after[i].election_timeout)));
    }
    lemma_ticks(w, before, after, upto);
    if upto == before.len() {
        assert(after.take(upto as int) + before.skip(upto as int) =~= after);
    }
}

/// What node `i` sent when it took what its inbox gave.
#[verifier::opaque]
pub open spec fn sent_at<Rng: RngProvider>(
    before: Seq<TestNode<Rng>>,
    after: Seq<TestNode<Rng>>,
    i: int,
) -> Set<Outgoing> {
    match after[i].channel.answers().last() {
        Some(p) if before[i].accepts(p.to_message()) => before[i]@.step(
            p.to_message(),
            after[i].election_timeout,
        ).sent.to_set(),
        _ => Set::empty(),
    }
}

/// All that was sent before it was the turn of node `upto`.
pub open spec fn sent_until<Rng: RngProvider>(
    net: Set<Outgoing>,
    before: Seq<TestNode<Rng>>,
    after: Seq<TestNode<Rng>>,
    upto: nat,
) -> Set<Outgoing>
    decreases upto,
{
    if upto == 0 {
        net
    } else {
        sent_until(net, before, after, (upto - 1) as nat).union(sent_at(before, after, upto - 1))
    }
}

/// The message `p` that came in for node `id` is one of those in `net`.
pub open spec fn comes_from(net: Set<Outgoing>, p: ProtoView, id: u64, out: Outgoing) -> bool {
    &&& net.contains(out)
    &&& addressed(out, id)
    &&& out.message() !is StartCampaign
    &&& out.message().to_proto() == p
}

/// Whatever came in for a node was sent to it before.
pub open spec fn nothing_made_up<Rng: RngProvider>(
    net: Set<Outgoing>,
    before: Seq<TestNode<Rng>>,
    after: Seq<TestNode<Rng>>,
) -> bool {
    forall|i: int|
        0 <= i < before.len() ==> (#[trigger] after[i].channel.answers().last() matches Some(p)
            ==> exists|out: Outgoing| #[trigger]
            comes_from(sent_until(net, before, after, i as nat), p, before[i].id@, out))
}

/// A message that was sent reaches a node, which takes it.
proof fn lemma_deliver<Rng: RngProvider>(
    w: World,
    k: int,
    before: TestNode<Rng>,
    after: TestNode<Rng>,
    p: ProtoView,
    out: Outgoing,
)
    requires
        0 <= k < w.nodes.len(),
        w.nodes[k] == before@,
        before.accepts(p.to_message()),
        after@ == before@.step(p.to_message(), after.election_timeout).node,
        comes_from(w.net, p, before.id@, out),
    ensures
        ({
            let e = Event::Deliver { node: k, message: out, timeout: after.election_timeout };
            &&& w.enabled(e)
            &&& w.next(e).nodes == w.nodes.update(k, after@)
            &&& w.next(e).net == w.net.union(
                before@.step(p.to_message(), after.election_timeout).sent.to_set(),
            )
        }),
{
    law_message_round_trip(out.message());
}

/// What is known of a step of the cluster.
#[verifier::opaque]
spec fn is_step<Rng: RngProvider>(
    net: Set<Outgoing>,
    before: Seq<TestNode<Rng>>,
    after: Seq<TestNode<Rng>>,
) -> bool {
    all_asked(before, after) && nothing_made_up(net, before, after)
}

/// The turn of one node in a step of the cluster.
proof fn lemma_turn<Rng: RngProvider>(
    w: World,
    events: Seq<Event>,
    before: Seq<TestNode<Rng>>,
    after: Seq<TestNode<Rng>>,
    k: int,
) -> (more: Seq<Event>)
    requires
        w.allows(events),
        is_step(w.net, before, after),
        0 <= k < before.len(),
        w.after(events).nodes.len() == before.len(),
        w.after(events).nodes[k] == before[k]@,
        w.after(events).net == sent_until(w.net, before, after, k as nat),
    ensures
        w.allows(more),
        w.after(more).nodes == w.after(events).nodes.update(k, after[k]@),
        w.after(more).net == w.after(events).net.union(sent_at(before, after, k)),
{
    reveal(is_step);
    reveal(sent_at);
    let mid = w.after(events);
    assert(asked(before[k], after[k]));
    match after[k].channel.answers().last() {
        Some(p) if before[k].accepts(p.to_message()) => {
            let out = choose|out: Outgoing| #[trigger] comes_from(mid.net, p, before[k].id@, out);
            assert(took_arrival(before[k], after[k], Some(p)));
            lemma_deliver(mid, k, before[k], after[k], p, out);
            let event = Event::Deliver {
                node: k,
                message: out,
                timeout: after[k].election_timeout,
            };
            let all = events.push(event);
            assert(all.drop_last() =~= events);
            assert(all.last() == event);
            all
        },
        _ => {
            assert(after[k]@ == before[k]@);
            assert(mid.nodes.update(k, after[k]@) =~= mid.nodes);
            assert(mid.net.union(Set::empty()) =~= mid.net);
            events
        },
    }
}

/// The turns of the first `upto` nodes in a step of the cluster.
proof fn lemma_turns<Rng: RngProvider>(
    w: World,
    before: Seq<TestNode<Rng>>,
    after: Seq<TestNode<Rng>>,
    upto: nat,
) -> (events: Seq<Event>)
    requires
        w.nodes == models(before),
        after.len() == before.len(),
        is_step(w.net, before, after),
        upto <= before.len(),
    ensures
        w.allows(events),
        w.after(events).nodes == models(after.take(upto as int) + before.skip(upto as int)),
        w.after(events).net == sent_until(w.net, before, after, upto),
    decreases upto,
{
    if upto == 0 {
        assert(after.take(0) + before.skip(0) =~= before);
        Seq::empty()
    } else {
        let k = upto - 1;
        let events = lemma_turns(w, before, after, k as nat);
        let old_nodes = after.take(k) + before.skip(k);
        let new_nodes = after.take(k + 1) + before.skip(k + 1);
        assert(old_nodes[k] == before[k]);
        let all = lemma_turn(w, events, before, after, k);
        assert(models(old_nodes).update(k, after[k]@) =~= models(new_nodes));
        all
    }
}

/// A step of a simulated cluster is a run of the state machine, in which each
/// node takes what its inbox gave, as long as the network makes nothing up.
pub proof fn law_step_is_a_run<Rng: RngProvider>(
    w: World,
    before: Seq<TestNode<Rng>>,
    after: Seq<TestNode<Rng>>,
) -> (events: Seq<Event>)
    requires
        w.nodes == models(before),
        all_asked(before, after),
        nothing_made_up(w.net, before, after),
    ensures
        w.allows(events),
        w.after(events).nodes == models(after),
        w.after(events).net == sent_until(w.net, before, after, before.len()),
{
    reveal(is_step);
    let n = before.len();
    assert(after.take(n as int) + before.skip(n as int) =~= after);
    lemma_turns(w, before, after, n)
}

} // verus!
