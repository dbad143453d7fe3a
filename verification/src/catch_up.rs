//! How a follower that lags behind its leader catches up.
use vstd::prelude::*;

use crate::communication::Outgoing;
use crate::completeness::{lemma_merge, matching};
use crate::consistency::shares;
use crate::model::NodeModel;
use crate::proto::{AppendResponse, EntryView, MessageView};
use crate::safety::law_log_matching;
use crate::storage::term_at;
use crate::world::{Event, World};

verus! {

/// Two logs that hold an entry of one term at one place hold the same entries
/// up to there.
pub open spec fn logs_match(a: Seq<EntryView>, b: Seq<EntryView>) -> bool {
    forall|j: int|
        0 <= j < a.len() && j < b.len() && (#[trigger] a[j]).term == (#[trigger] b[j]).term
            ==> a.take(j + 1) == b.take(j + 1)
}

/// What `follower` answers to the `Append` that `leader` has for it.
pub open spec fn answer_to_append(leader: NodeModel, follower: NodeModel) -> AppendResponse {
    follower.on_append(leader.append_for(follower.id)).sent[0].message()->AppendResponse_0
}

/// A leader and one of its followers after `rounds` exchanges, in each of
/// which the `Append` that the leader has for the follower reaches it and the
/// answer reaches the leader.
pub open spec fn after_exchanges(leader: NodeModel, follower: NodeModel, rounds: nat) -> (
    NodeModel,
    NodeModel,
)
    decreases rounds,
{
    if rounds == 0 {
        (leader, follower)
    } else {
        let l = leader.on_append_response(answer_to_append(leader, follower)).node;
        let f = follower.on_append(leader.append_for(follower.id)).node;
        after_exchanges(l, f, (rounds - 1) as nat)
    }
}

/// What a leader knows of where to go on with `id`.
pub open spec fn next_index_of(leader: NodeModel, id: u64) -> u64 {
    leader.role->progress[id - 1].next_index
}

/// A leader and a follower of its cluster that can exchange messages, with
/// logs that match.
pub open spec fn in_touch(leader: NodeModel, follower: NodeModel) -> bool {
    &&& leader.wf()
    &&& follower.wf()
    &&& leader.role is Leader
    &&& leader.cluster_size == follower.cluster_size
    &&& follower.id != leader.id
    &&& follower.term <= leader.term
    &&& logs_match(leader.log, follower.log)
    &&& 1 <= next_index_of(leader, follower.id) <= leader.log.len() + 1
}

/// One exchange either brings the follower up to date or lets the leader go
/// back by one entry.
proof fn lemma_exchange(leader: NodeModel, follower: NodeModel)
    requires
        in_touch(leader, follower),
    ensures
        ({
            let f = follower.on_append(leader.append_for(follower.id)).node;
            let l = leader.on_append_response(answer_to_append(leader, follower)).node;
            let next = next_index_of(leader, follower.id);
            ||| shares(f.log, leader.log, leader.log.len() as int) && l.log == leader.log
            ||| {
                &&& next > 1
                &&& in_touch(l, f)
                &&& l.log == leader.log
                &&& next_index_of(l, f.id) == next - 1
                &&& f.id == follower.id
            }
        }),
{
    lemma_answered(leader, follower);
}

/// A follower that lags behind catches up by backtracking: after no more
/// exchanges than the leader has entries to go back to, the follower holds all
/// entries of the leader's log, equal in index, term and data.
pub proof fn law_lagging_follower_catches_up(leader: NodeModel, follower: NodeModel) -> (rounds: nat)
    requires
        in_touch(leader, follower),
    ensures
        1 <= rounds <= next_index_of(leader, follower.id),
        shares(
            after_exchanges(leader, follower, rounds).1.log,
            leader.log,
            leader.log.len() as int,
        ),
        after_exchanges(leader, follower, rounds).0.log == leader.log,
    decreases next_index_of(leader, follower.id),
{
    lemma_exchange(leader, follower);
    let f = follower.on_append(leader.append_for(follower.id)).node;
    let l = leader.on_append_response(answer_to_append(leader, follower)).node;
    if shares(f.log, leader.log, leader.log.len() as int) {
        reveal_with_fuel(after_exchanges, 2);
        1
    } else {
        let more = law_lagging_follower_catches_up(l, f);
        more + 1
    }
}

/// A heartbeat starts it: the answer of a follower that is not known to hold
/// the whole log makes the leader send it an `Append`, and the two can go on
/// from there.
pub proof fn law_heartbeat_starts_catching_up(leader: NodeModel, follower: NodeModel)
    requires
        in_touch(leader, follower),
        follower.role !is Leader,
        leader.role->progress[follower.id - 1].match_index < leader.log.len(),
    ensures
        ({
            let f = follower.on_heartbeat(leader.heartbeat(0)).node;
            let effect = leader.on_heartbeat_response(f.heartbeat(leader.id));
            &&& follower.on_heartbeat(leader.heartbeat(0)).sent == seq![
                Outgoing::To(MessageView::HeartbeatResponse(f.heartbeat(leader.id))),
            ]
            &&& effect.sent == seq![
                Outgoing::To(MessageView::Append(effect.node.append_for(f.id))),
            ]
            &&& in_touch(effect.node, f)
            &&& f.log == follower.log
            &&& effect.node.log == leader.log
            &&& next_index_of(effect.node, f.id) <= next_index_of(leader, follower.id)
        }),
{
    let f = follower.on_heartbeat(leader.heartbeat(0)).node;
    let effect = leader.on_heartbeat_response(f.heartbeat(leader.id));
    assert(f.wf());
    assert(effect.node.wf());
}

/// The `Append` that `leader` has for `follower`.
pub open spec fn append_out(leader: NodeModel, follower: NodeModel) -> Outgoing {
    Outgoing::To(MessageView::Append(leader.append_for(follower.id)))
}

/// The answer of `follower` to it.
pub open spec fn answer_out(leader: NodeModel, follower: NodeModel) -> Outgoing {
    Outgoing::To(MessageView::AppendResponse(answer_to_append(leader, follower)))
}

/// The leader at position `l` and the follower at position `f` of a cluster
/// are in touch, and the `Append` that the one has for the other is on its
/// way. There is room for all that can come of it.
pub open spec fn under_way(w: World, l: int, f: int) -> bool {
    &&& 0 <= l < w.nodes.len()
    &&& 0 <= f < w.nodes.len()
    &&& in_touch(w.nodes[l], w.nodes[f])
    &&& w.net.contains(append_out(w.nodes[l], w.nodes[f]))
    &&& w.nodes[l].log.len() + w.nodes[f].log.len() < u64::MAX
    &&& w.nodes[l].role->progress[w.nodes[f].id - 1].consecutive_failures + next_index_of(
        w.nodes[l],
        w.nodes[f].id,
    ) < u64::MAX
}

/// One exchange, as two events of the cluster.
proof fn lemma_exchange_events(w: World, l: int, f: int, timeout: u64) -> (events: Seq<Event>)
    requires
        under_way(w, l, f),
    ensures
        w.allows(events),
        w.after(events).nodes == w.nodes.update(
            f,
            w.nodes[f].on_append(w.nodes[l].append_for(w.nodes[f].id)).node,
        ).update(
            l,
            w.nodes[l].on_append_response(answer_to_append(w.nodes[l], w.nodes[f])).node,
        ),
        shares(
            w.after(events).nodes[f].log,
            w.nodes[l].log,
            w.nodes[l].log.len() as int,
        ) || (under_way(w.after(events), l, f) && next_index_of(
            w.after(events).nodes[l],
            w.nodes[f].id,
        ) < next_index_of(w.nodes[l], w.nodes[f].id)),
        w.after(events).nodes[l].log == w.nodes[l].log,
        w.after(events).nodes[f].id == w.nodes[f].id,
        events.len() == 2,
{
    let leader = w.nodes[l];
    let follower = w.nodes[f];
    lemma_exchange(leader, follower);
    lemma_answered(leader, follower);
    let first = Event::Deliver { node: f, message: append_out(leader, follower), timeout };
    let second = Event::Deliver { node: l, message: answer_out(leader, follower), timeout };
    let mid = w.next(first);
    assert(w.enabled(first));
    assert(follower.on_append(leader.append_for(follower.id)).sent =~= seq![
        answer_out(leader, follower),
    ]);
    assert(follower.on_append(leader.append_for(follower.id)).sent[0] == answer_out(
        leader,
        follower,
    ));
    assert(mid.net.contains(answer_out(leader, follower)));
    assert(mid.nodes[l] == leader);
    assert(mid.enabled(second));
    let end = mid.next(second);
    let events = seq![first, second];
    assert(events.drop_last() =~= seq![first]);
    assert(seq![first].drop_last() =~= Seq::<Event>::empty());
    reveal_with_fuel(World::after, 3);
    reveal_with_fuel(World::allows, 3);
    assert(w.after(Seq::empty()) == w);
    assert(w.after(seq![first]) == mid);
    assert(w.after(events) == end);
    assert(end.nodes =~= w.nodes.update(
        f,
        follower.on_append(leader.append_for(follower.id)).node,
    ).update(l, leader.on_append_response(answer_to_append(leader, follower)).node));
    let new_leader = end.nodes[l];
    let new_follower = end.nodes[f];
    if !shares(new_follower.log, leader.log, leader.log.len() as int) {
        assert(leader.on_append_response(answer_to_append(leader, follower)).sent[0] == append_out(
            new_leader,
            new_follower,
        ));
        assert(end.net.contains(append_out(new_leader, new_follower)));
    }
    events
}

/// What a follower answers to the `Append` of a leader it is in touch with: it
/// holds the entries, or it does not and its log is as it was.
proof fn lemma_answered(leader: NodeModel, follower: NodeModel)
    requires
        in_touch(leader, follower),
    ensures
        ({
            let effect = follower.on_append(leader.append_for(follower.id));
            let a = answer_to_append(leader, follower);
            &&& effect.sent == seq![answer_out(leader, follower)]
            &&& a.to == leader.id
            &&& a.from == follower.id
            &&& a.term == leader.term
            &&& !a.success ==> {
                &&& effect.node.log == follower.log
                &&& effect.node.wf()
                &&& effect.node.id == follower.id
                &&& effect.node.cluster_size == follower.cluster_size
                &&& effect.node.term == leader.term
                &&& next_index_of(leader, follower.id) > 1
            }
            &&& a.success ==> shares(effect.node.log, leader.log, leader.log.len() as int)
        }),
{
    let m = leader.append_for(follower.id);
    let prev = (next_index_of(leader, follower.id) - 1) as u64;
    let n = leader.log.len() as int;
    assert(m.last_index == prev);
    assert(m.entries =~= leader.log.subrange(prev as int, n));
    if follower.has_entry(m.last_index, m.last_term) {
        assert(follower.log.take(prev as int) =~= leader.log.take(prev as int)) by {
            if prev > 0 {
                assert(term_at(leader.log, prev) == Some(leader.log[prev - 1].term));
                assert(leader.log[prev - 1].term == follower.log[prev - 1].term);
            }
        }
        assert(matching(follower.log, leader.log)) by {
            assert forall|j: int|
                0 <= j < follower.log.len() && j < leader.log.len() && (
                #[trigger] follower.log[j]).term == (#[trigger] leader.log[j]).term implies
                follower.log[j] == leader.log[j] by {
                assert(leader.log.take(j + 1)[j] == follower.log.take(j + 1)[j]);
            }
        }
        lemma_merge(follower.log, leader.log, prev as int, n - prev);
        assert(leader.log.take(n) =~= leader.log);
    }
}

proof fn lemma_run_add(w: World, a: Seq<Event>, b: Seq<Event>)
    requires
        w.allows(a),
        w.after(a).allows(b),
    ensures
        w.allows(a + b),
        w.after(a + b) == w.after(a).after(b),
    decreases b.len(),
{
    if b.len() == 0 {
        assert(a + b =~= a);
    } else {
        assert((a + b).drop_last() =~= a + b.drop_last());
        lemma_run_add(w, a, b.drop_last());
    }
}

/// A follower of a cluster that lags behind catches up: where the `Append` that
/// its leader has for it is on its way, there is a run, of no more than two
/// messages for each entry that the leader has to go back, after which the
/// follower holds all entries of the leader's log.
pub proof fn law_cluster_lets_a_follower_catch_up(w: World, l: int, f: int) -> (events: Seq<Event>)
    requires
        under_way(w, l, f),
    ensures
        w.allows(events),
        events.len() <= 2 * next_index_of(w.nodes[l], w.nodes[f].id),
        w.after(events).nodes.len() == w.nodes.len(),
        w.after(events).nodes[l].log == w.nodes[l].log,
        shares(w.after(events).nodes[f].log, w.nodes[l].log, w.nodes[l].log.len() as int),
    decreases next_index_of(w.nodes[l], w.nodes[f].id),
{
    let events = lemma_exchange_events(w, l, f, 0);
    let next = w.after(events);
    if shares(next.nodes[f].log, w.nodes[l].log, w.nodes[l].log.len() as int) {
        events
    } else {
        let more = law_cluster_lets_a_follower_catch_up(next, l, f);
        lemma_run_add(w, events, more);
        events + more
    }
}

/// In every run of a cluster the logs of any two nodes match, as catching up
/// needs it.
pub proof fn law_logs_match_in_runs(w: World, events: Seq<Event>, i: int, j: int)
    requires
        w.is_initial(),
        w.allows(events),
        0 <= i < w.after(events).nodes.len(),
        0 <= j < w.after(events).nodes.len(),
    ensures
        logs_match(w.after(events).nodes[i].log, w.after(events).nodes[j].log),
{
    let a = w.after(events).nodes[i].log;
    let b = w.after(events).nodes[j].log;
    assert forall|k: int|
        0 <= k < a.len() && k < b.len() && (#[trigger] a[k]).term == (#[trigger] b[k]).term implies
        a.take(k + 1) == b.take(k + 1) by {
        law_log_matching(w, events, i, j, k);
    }
}

} // verus!
