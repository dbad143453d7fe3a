//! The promises of the protocol, for every run of a cluster: a term has one
//! leader, logs agree where they share an entry, a leader has all that was
//! committed before it, and no two nodes commit different entries.
use vstd::prelude::*;

use crate::communication::Outgoing;
use crate::completeness::{lemma_backed_agree, lemma_leader_has_chosen, lemma_shares_fewer};
use crate::consistency::shares;
use crate::frame::lemma_commit_stable;
use crate::elections::{lemma_campaign, lemma_elected, lemma_propose};
use crate::model::{up_to_date, NodeModel};
use crate::proto::{
    AppendResponse, AppendView, Heartbeat, MessageView, RequestVote, RequestVoteResponse,
};
use crate::quorum::{count_set, has_majority, Vote};
use crate::replication::{lemma_append_taken, lemma_on_vote_request, lemma_on_vote_response};
use crate::role::RoleView;
use crate::steps::{
    lemma_append_for_ok, lemma_commit_later, lemma_settles_well, settles,
};
use crate::world::{Event, World};

verus! {

/// The commit point never goes back.
proof fn lemma_commit_point_grows(n: NodeModel, upto: nat)
    requires
        upto <= u64::MAX,
    ensures
        n.commit_point(upto) >= n.committed,
    decreases upto,
{
    if upto > n.committed && !n.committable(upto as int) {
        lemma_commit_point_grows(n, (upto - 1) as nat);
    }
}

/// Whatever happens to a node, the index up to which it has committed never
/// goes back.
pub proof fn law_commit_never_goes_back(s: NodeModel, e: Event)
    requires
        s.wf(),
    ensures
        e.effect(s).node.committed >= s.committed,
{
    match e {
        Event::Deliver { node, message, timeout } => {
            if let MessageView::AppendResponse(m) = message.message() {
                let grown = s.with_match(m.from, m.last_index);
                lemma_commit_point_grows(grown, grown.log.len());
            }
        },
        _ => {},
    }
}

/// Whatever happens to a node, its term never goes back, as long as there is a
/// next one, and in one term it never takes back or changes its vote.
pub proof fn law_one_vote_per_term(s: NodeModel, e: Event)
    requires
        s.wf(),
        s.term < u64::MAX,
        s.role !is Follower ==> s.voted_for == s.id,
    ensures
        e.effect(s).node.term >= s.term,
        e.effect(s).node.term == s.term && s.voted_for != 0 ==> e.effect(s).node.voted_for
            == s.voted_for,
{
}

/// A leader commits by counting only entries of its own term, and only such as
/// more than half of the cluster is known to hold.
pub proof fn law_commits_own_term_by_majority(s: NodeModel, m: AppendResponse)
    requires
        s.wf(),
        s.role is Leader,
        s.on_append_response(m).node.committed > s.committed,
    ensures
        ({
            let n = s.on_append_response(m).node;
            &&& n.committed <= n.log.len()
            &&& n.log[n.committed - 1].term == n.term
            &&& count_set(n.holders(n.committed as int)) > n.cluster_size / 2
        }),
{
    let grown = s.with_match(m.from, m.last_index);
    let n = s.on_append_response(m).node;
    lemma_commit_point_is_committable(grown, grown.log.len());
    assert(n.holders(n.committed as int) =~= grown.holders(n.committed as int));
}

proof fn lemma_commit_point_is_committable(n: NodeModel, upto: nat)
    requires
        upto <= n.log.len() <= u64::MAX,
        n.commit_point(upto) > n.committed,
    ensures
        n.commit_point(upto) <= upto,
        n.committable(n.commit_point(upto) as int),
    decreases upto,
{
    if upto > n.committed && !n.committable(upto as int) {
        lemma_commit_point_is_committable(n, (upto - 1) as nat);
    }
}

/// A node votes for nobody whose log is behind its own, for nobody of an
/// earlier term, and for nobody but the one it has voted for.
pub proof fn law_vote_rules(s: NodeModel, m: RequestVote, reply: RequestVoteResponse)
    requires
        s.wf(),
        m.from != 0,
        s.on_vote_request(m).sent[0] == Outgoing::To(MessageView::RequestVoteResponse(reply)),
        reply.voted_for == m.from,
    ensures
        m.candidate_term >= s.term,
        m.candidate_term == s.term ==> s.voted_for == 0 || s.voted_for == m.from,
        m.candidate_term > s.term || s.voted_for == 0 ==> up_to_date(
            m.last_term,
            m.last_index,
            s.log,
        ),
{
}

/// A move that settles and votes for nobody new.
proof fn lemma_settles_quietly(w: World, e: Event)
    requires
        w.inv(),
        w.enabled(e),
        settles(w, w.nodes[e.node()], e.effect(w.nodes[e.node()]).node),
        e.effect(w.nodes[e.node()]).node.voted_for == 0 || (e.effect(w.nodes[e.node()]).node.term
            == w.nodes[e.node()].term && e.effect(w.nodes[e.node()]).node.voted_for
            == w.nodes[e.node()].voted_for),
        e.effect(w.nodes[e.node()]).sent.len() == 0 || (e.effect(
            w.nodes[e.node()],
        ).sent.len() == 1 && match e.effect(w.nodes[e.node()]).sent[0] {
            Outgoing::To(m) => match m {
                MessageView::HeartbeatResponse(r) => r.to != r.from,
                MessageView::AppendResponse(r) => !r.success && r.to != r.from,
                MessageView::Append(a) => {
                    let n = e.effect(w.nodes[e.node()]).node;
                    exists|to: u64|
                        n.role is Leader && 1 <= to <= n.role->progress.len() && to != n.id && a
                            == #[trigger] n.append_for(to)
                },
                _ => false,
            },
            Outgoing::All(m) => m is Heartbeat,
        }),
    ensures
        w.next(e).inv(),
        w.moves(w.next(e), e.node()),
{
    let i = e.node();
    let s = w.nodes[i];
    let f = e.effect(s);
    assert(w.node_ok(s));
    assert forall|o: Outgoing| #[trigger] f.sent.contains(o) implies o == f.sent[0] by {}
    if f.sent.len() == 1 && w.next(e).node_ok(f.node) {
        match f.sent[0] {
            Outgoing::To(MessageView::Append(a)) => {
                let to = choose|to: u64|
                    f.node.role is Leader && 1 <= to <= f.node.role->progress.len() && to
                        != f.node.id && a == #[trigger] f.node.append_for(to);
                lemma_append_for_ok(w.next(e), f.node, to);
            },
            _ => {},
        }
    }
    lemma_settles_well(w, e);
}

proof fn lemma_on_heartbeat(w: World, e: Event, m: Heartbeat)
    requires
        w.inv(),
        w.enabled(e),
        m.from != w.nodes[e.node()].id,
        e.effect(w.nodes[e.node()]) == w.nodes[e.node()].on_heartbeat(m),
    ensures
        w.next(e).inv(),
        w.moves(w.next(e), e.node()),
{
    let s = w.nodes[e.node()];
    let n = e.effect(s).node;
    assert(w.node_ok(s));
    lemma_commit_later(w, s.log, s.term, n.term, s.committed as int);
    lemma_settles_quietly(w, e);
}

proof fn lemma_on_heartbeat_response(w: World, e: Event, m: Heartbeat)
    requires
        w.inv(),
        w.enabled(e),
        m.from != w.nodes[e.node()].id,
        e.effect(w.nodes[e.node()]) == w.nodes[e.node()].on_heartbeat_response(m),
    ensures
        w.next(e).inv(),
        w.moves(w.next(e), e.node()),
{
    let s = w.nodes[e.node()];
    let n = e.effect(s).node;
    assert(w.node_ok(s));
    lemma_commit_later(w, s.log, s.term, n.term, s.committed as int);
    if n.role is Leader {
        assert(w.leader_ok(s));
        assert forall|a: int| 0 <= a < n.role->progress.len() implies {
            let p = #[trigger] n.role->progress[a];
            &&& 1 <= p.next_index <= n.log.len() + 1
            &&& p.match_index == 0 || w.acked((a + 1) as u64, n.term, p.match_index as int)
        } by {
            let old_p = s.role->progress[a];
            assert(1 <= old_p.next_index <= s.log.len() + 1);
        }
    }
    lemma_settles_quietly(w, e);
}

proof fn lemma_on_append(w: World, e: Event, m: AppendView)
    requires
        w.inv(),
        w.enabled(e),
        w.append_ok(m),
        m.to == w.nodes[e.node()].id,
        w.nodes[e.node()].can_step(MessageView::Append(m)),
        e.effect(w.nodes[e.node()]) == w.nodes[e.node()].on_append(m),
    ensures
        w.next(e).inv(),
        w.moves(w.next(e), e.node()),
{
    let s = w.nodes[e.node()];
    let n = e.effect(s).node;
    if s.term <= m.leader_term && s.has_entry(m.last_index, m.last_term) {
        lemma_append_taken(w, e, m);
    } else {
        assert(w.node_ok(s));
        lemma_commit_later(w, s.log, s.term, n.term, s.committed as int);
        if n.role is Candidate {
            assert(n.role == s.role);
            assert(w.candidate_ok(n, n.role->votes));
        }
        lemma_settles_quietly(w, e);
    }
}

/// An acknowledgement of a log is one of any part of it.
proof fn lemma_acked_fewer(w: World, v: u64, t: u64, k: int, j: int)
    requires
        w.acked(v, t, k),
        1 <= j <= k,
    ensures
        w.acked(v, t, j),
{
    if w.reigns[t].leader != v {
        let m = choose|m: AppendResponse| #[trigger]
            w.has_ack(m) && m.success && m.from == v && m.term == t && m.last_index >= k;
        assert(w.has_ack(m) && m.last_index >= j);
    }
}

/// What a leader commits is safe.
proof fn lemma_commit_point(w: World, n: NodeModel, upto: nat)
    requires
        w.led(n.term),
        w.reigns[n.term].leader == n.id,
        w.leader_log(n.term) == n.log,
        w.progress_ok(n),
        n.role is Leader,
        n.wf(),
        n.cluster_size == w.nodes.len(),
        upto <= n.log.len(),
        w.commit_ok(n.log, n.term, n.committed as int),
    ensures
        w.commit_ok(n.log, n.term, n.commit_point(upto) as int),
    decreases upto,
{
    if upto <= n.committed {
    } else if n.committable(upto as int) {
        let k = upto as int;
        let q = n.holders(k);
        assert(w.majority(q));
        assert forall|i: int| 0 <= i < q.len() && #[trigger] q[i] implies w.acked(
            (i + 1) as u64,
            n.term,
            k,
        ) by {
            if i + 1 != n.id {
                let p = n.role->progress[i];
                lemma_acked_fewer(w, (i + 1) as u64, n.term, p.match_index as int, k);
            }
        }
        assert(w.all_acked(q, n.term, k));
        assert(w.chosen(n.term, k));
        assert(w.commit_source(n.log, n.term, k, n.term, k));
    } else {
        lemma_commit_point(w, n, (upto - 1) as nat);
    }
}

proof fn lemma_on_append_response(w: World, e: Event, m: AppendResponse)
    requires
        w.inv(),
        w.enabled(e),
        w.has_ack(m),
        m.to == w.nodes[e.node()].id,
        w.nodes[e.node()].can_step(MessageView::AppendResponse(m)),
        e.effect(w.nodes[e.node()]) == w.nodes[e.node()].on_append_response(m),
    ensures
        w.next(e).inv(),
        w.moves(w.next(e), e.node()),
{
    let s = w.nodes[e.node()];
    let f = e.effect(s);
    let n = f.node;
    assert(w.node_ok(s));
    assert(w.out_ok(Outgoing::To(MessageView::AppendResponse(m))));
    if m.term == s.term && s.role is Leader && 1 <= m.from <= s.role->progress.len() {
        assert(w.leader_ok(s));
        let grown = if m.success {
            s.with_match(m.from, m.last_index)
        } else {
            n
        };
        let q = s.role->progress[m.from - 1];
        assert(1 <= q.next_index <= s.log.len() + 1);
        assert(w.progress_ok(grown)) by {
            assert forall|a: int| 0 <= a < grown.role->progress.len() implies {
                let p = #[trigger] grown.role->progress[a];
                &&& 1 <= p.next_index <= grown.log.len() + 1
                &&& p.match_index == 0 || w.acked((a + 1) as u64, grown.term, p.match_index as int)
            } by {
                let old_p = s.role->progress[a];
                assert(1 <= old_p.next_index <= s.log.len() + 1);
                if a == m.from - 1 && m.success {
                    let p = grown.role->progress[a];
                    if p.match_index != 0 && p.match_index != old_p.match_index {
                        assert(p.match_index == m.last_index);
                        assert(w.has_ack(m));
                    }
                }
            }
        }
        if m.success {
            assert(grown.wf());
            lemma_commit_point(w, grown, grown.log.len());
            assert(w.progress_ok(n)) by {
                assert(n.role == grown.role);
            }
        }
    } else {
        lemma_commit_later(w, s.log, s.term, n.term, s.committed as int);
    }
    lemma_settles_quietly(w, e);
}

proof fn lemma_tick(w: World, e: Event, timeout: u64)
    requires
        w.inv(),
        w.enabled(e),
        e matches Event::Tick { node, timeout: t } && t == timeout,
    ensures
        w.next(e).inv(),
        w.moves(w.next(e), e.node()),
{
    let i = e.node();
    let s = w.nodes[i];
    let n = e.effect(s).node;
    assert(w.node_ok(s));
    match s.role {
        RoleView::Follower { promotable, ticks } => {
            if ticks + 1 >= s.election_timeout {
                lemma_campaign(w, e, timeout);
            } else {
                lemma_settles_quietly(w, e);
            }
        },
        RoleView::Candidate { ticks, votes } => {
            if ticks + 1 >= s.election_timeout {
                lemma_campaign(w, e, timeout);
            } else if has_majority(votes, Vote::For) {
                lemma_elected(w, e, timeout);
            } else {
                assert(w.candidate_ok(n, votes));
                lemma_settles_quietly(w, e);
            }
        },
        RoleView::Leader { ticks, progress } => {
            assert(n.role->progress == s.role->progress);
            assert(w.progress_ok(n)) by {
                assert forall|a: int| 0 <= a < n.role->progress.len() implies {
                    let p = #[trigger] n.role->progress[a];
                    &&& 1 <= p.next_index <= n.log.len() + 1
                    &&& p.match_index == 0 || w.acked((a + 1) as u64, n.term, p.match_index as int)
                } by {
                    let p = s.role->progress[a];
                    assert(1 <= p.next_index <= s.log.len() + 1);
                }
            }
            lemma_settles_quietly(w, e);
        },
    }
}

proof fn lemma_deliver(w: World, e: Event, message: Outgoing, timeout: u64)
    requires
        w.inv(),
        w.enabled(e),
        e matches Event::Deliver { node, message: m, timeout: t } && m == message && t == timeout,
    ensures
        w.next(e).inv(),
        w.moves(w.next(e), e.node()),
{
    assert(w.out_ok(message));
    match message {
        Outgoing::To(m) => match m {
            MessageView::Append(m) => lemma_on_append(w, e, m),
            MessageView::AppendResponse(m) => lemma_on_append_response(w, e, m),
            MessageView::RequestVoteResponse(m) => lemma_on_vote_response(w, e, m, timeout),
            MessageView::HeartbeatResponse(m) => lemma_on_heartbeat_response(w, e, m),
            _ => {},
        },
        Outgoing::All(m) => match m {
            MessageView::RequestVote(m) => lemma_on_vote_request(w, e, m),
            MessageView::Heartbeat(m) => lemma_on_heartbeat(w, e, m),
            _ => {},
        },
    }
}

/// Whatever happens to a consistent cluster leaves it consistent.
proof fn lemma_next(w: World, e: Event)
    requires
        w.inv(),
        w.enabled(e),
    ensures
        w.next(e).inv(),
        w.moves(w.next(e), e.node()),
{
    let s = w.nodes[e.node()];
    match e {
        Event::Tick { node, timeout } => lemma_tick(w, e, timeout),
        Event::Campaign { node, timeout } => lemma_campaign(w, e, timeout),
        Event::Deliver { node, message, timeout } => lemma_deliver(w, e, message, timeout),
        Event::Propose { node, data } => {
            if s.role is Leader {
                lemma_propose(w, e, data);
            } else {
                assert(w.node_ok(s));
                lemma_settles_quietly(w, e);
            }
        },
        Event::Submit { node, data } => {
            if s.role is Leader {
                lemma_propose(w, e, data);
            } else {
                assert(w.node_ok(s));
                lemma_settles_quietly(w, e);
            }
        },
    }
}

/// A cluster starts consistent.
proof fn lemma_initial(w: World)
    requires
        w.is_initial(),
    ensures
        w.inv(),
{
    assert(w.shape_ok()) by {
        assert(w.nodes[0].cluster_size == w.nodes.len());
    }
    assert(w.nodes_ok()) by {
        assert forall|i: int| 0 <= i < w.nodes.len() implies #[trigger] w.node_ok(w.nodes[i]) by {
            let s = w.nodes[i];
            assert(s.log.len() == 0);
        }
    }
}

/// A cluster is consistent at every moment of every run.
proof fn lemma_run(w: World, events: Seq<Event>)
    requires
        w.is_initial(),
        w.allows(events),
    ensures
        w.after(events).inv(),
    decreases events.len(),
{
    if events.len() == 0 {
        lemma_initial(w);
    } else {
        lemma_run(w, events.drop_last());
        lemma_next(w.after(events.drop_last()), events.last());
    }
}

/// Election safety: whatever happens to a cluster, no two of its nodes lead in
/// one term.
pub proof fn law_election_safety(w: World, events: Seq<Event>, i: int, j: int)
    requires
        w.is_initial(),
        w.allows(events),
        0 <= i < w.after(events).nodes.len(),
        0 <= j < w.after(events).nodes.len(),
        w.after(events).nodes[i].role is Leader,
        w.after(events).nodes[j].role is Leader,
        w.after(events).nodes[i].term == w.after(events).nodes[j].term,
    ensures
        i == j,
{
    lemma_run(w, events);
    let now = w.after(events);
    assert(now.node_ok(now.nodes[i]));
    assert(now.node_ok(now.nodes[j]));
}

/// Log matching: whatever happens to a cluster, two logs that hold an entry of
/// one term at one place hold the same entries up to there.
pub proof fn law_log_matching(w: World, events: Seq<Event>, i: int, j: int, k: int)
    requires
        w.is_initial(),
        w.allows(events),
        0 <= i < w.after(events).nodes.len(),
        0 <= j < w.after(events).nodes.len(),
        0 <= k < w.after(events).nodes[i].log.len(),
        k < w.after(events).nodes[j].log.len(),
        w.after(events).nodes[i].log[k].term == w.after(events).nodes[j].log[k].term,
    ensures
        w.after(events).nodes[i].log.take(k + 1) == w.after(events).nodes[j].log.take(k + 1),
{
    lemma_run(w, events);
    let now = w.after(events);
    assert(now.node_ok(now.nodes[i]));
    assert(now.node_ok(now.nodes[j]));
    lemma_backed_agree(now, now.nodes[i].log, now.nodes[j].log, k);
}

/// The nodes of a cluster stay the same number.
proof fn lemma_same_nodes(w: World, events: Seq<Event>)
    requires
        w.allows(events),
    ensures
        w.after(events).nodes.len() == w.nodes.len(),
    decreases events.len(),
{
    if events.len() > 0 {
        lemma_same_nodes(w, events.drop_last());
    }
}

/// Leader append-only: whatever happens to a leader that stays one, its log
/// only grows.
pub proof fn law_leader_append_only(w: World, events: Seq<Event>, e: Event)
    requires
        w.is_initial(),
        w.allows(events),
        w.after(events).enabled(e),
        w.after(events).nodes[e.node()].role is Leader,
        w.after(events).next(e).nodes[e.node()].role is Leader,
        w.after(events).next(e).nodes[e.node()].term == w.after(events).nodes[e.node()].term,
    ensures
        w.after(events).nodes[e.node()].log.is_prefix_of(
            w.after(events).next(e).nodes[e.node()].log,
        ),
{
    lemma_run(w, events);
    let now = w.after(events);
    let next = now.next(e);
    lemma_next(now, e);
    let s = now.nodes[e.node()];
    let n = next.nodes[e.node()];
    assert(now.node_ok(s));
    assert(next.node_ok(n));
    assert(now.led(s.term));
    let k = s.log.len() as int;
    assert(shares(n.log, s.log, k));
    assert(s.log.take(k) =~= s.log);
    assert(n.log.subrange(0, k) =~= n.log.take(k));
}

/// What a node committed it still has, unchanged, after any one event.
proof fn lemma_commit_survives(w: World, e: Event, i: int)
    requires
        w.inv(),
        w.enabled(e),
        0 <= i < w.nodes.len(),
    ensures
        w.next(e).inv(),
        w.next(e).nodes[i].committed >= w.nodes[i].committed,
        shares(w.next(e).nodes[i].log, w.nodes[i].log, w.nodes[i].committed as int),
{
    let next = w.next(e);
    lemma_next(w, e);
    let a = w.nodes[i];
    let b = next.nodes[i];
    let c = a.committed as int;
    let d = b.committed as int;
    assert(w.node_ok(a));
    assert(next.node_ok(b));
    if i == e.node() {
        law_commit_never_goes_back(a, e);
    }
    if c != 0 {
        lemma_commit_stable(w, next, e.node(), a.log, a.term, c);
        let (t, k) = choose|t: u64, k: int| #[trigger] next.commit_source(a.log, a.term, c, t, k);
        let (u, m) = choose|u: u64, m: int| #[trigger] next.commit_source(b.log, b.term, d, u, m);
        lemma_shares_fewer(b.log, next.leader_log(u), d, c);
        if t <= u {
            lemma_leader_has_chosen(next, t, k, u);
            lemma_shares_fewer(next.leader_log(u), next.leader_log(t), k, c);
        } else {
            lemma_leader_has_chosen(next, u, m, t);
            lemma_shares_fewer(next.leader_log(t), next.leader_log(u), m, c);
        }
    } else {
        assert(b.log.take(0) =~= a.log.take(0));
    }
}

/// A committed entry is never lost: what a node has committed at some moment
/// of a run it has at every later one.
pub proof fn law_committed_is_forever(w: World, events: Seq<Event>, later: Seq<Event>, i: int)
    requires
        w.is_initial(),
        w.allows(events + later),
        0 <= i < w.nodes.len(),
    ensures
        w.after(events).nodes[i].committed <= w.after(events + later).nodes[i].committed,
        w.after(events).nodes[i].committed <= w.after(events).nodes[i].log.len(),
        w.after(events).nodes[i].committed <= w.after(events + later).nodes[i].log.len(),
        w.after(events + later).nodes[i].log.take(w.after(events).nodes[i].committed as int)
            == w.after(events).nodes[i].log.take(w.after(events).nodes[i].committed as int),
    decreases later.len(),
{
    if later.len() == 0 {
        assert(events + later =~= events);
        lemma_run(w, events);
        let now = w.after(events);
        lemma_same_nodes(w, events);
        let s = now.nodes[i];
        assert(now.node_ok(s));
        if s.committed != 0 {
            let (t, k) = choose|t: u64, k: int| #[trigger]
                now.commit_source(s.log, s.term, s.committed as int, t, k);
        }
    } else {
        let all = events + later;
        assert(all.drop_last() =~= events + later.drop_last());
        assert(all.last() == later.last());
        law_committed_is_forever(w, events, later.drop_last(), i);
        let c = w.after(events).nodes[i].committed as int;
        let before = w.after(all.drop_last());
        lemma_run(w, all.drop_last());
        lemma_same_nodes(w, all.drop_last());
        lemma_commit_survives(before, all.last(), i);
        let a = w.after(events).nodes[i].log;
        let b = before.nodes[i].log;
        let d = before.next(all.last()).nodes[i].log;
        lemma_shares_fewer(d, b, before.nodes[i].committed as int, c);
        assert(shares(d, b, c));
    }
}

/// Leader completeness: whatever happens to a cluster, a leader holds all that
/// any node of its term, or of an earlier one, has committed.
pub proof fn law_leader_completeness(w: World, events: Seq<Event>, leader: int, i: int)
    requires
        w.is_initial(),
        w.allows(events),
        0 <= leader < w.after(events).nodes.len(),
        0 <= i < w.after(events).nodes.len(),
        w.after(events).nodes[leader].role is Leader,
        w.after(events).nodes[i].term <= w.after(events).nodes[leader].term,
    ensures
        w.after(events).nodes[i].committed <= w.after(events).nodes[i].log.len(),
        w.after(events).nodes[i].committed <= w.after(events).nodes[leader].log.len(),
        w.after(events).nodes[leader].log.take(w.after(events).nodes[i].committed as int)
            == w.after(events).nodes[i].log.take(w.after(events).nodes[i].committed as int),
{
    lemma_run(w, events);
    let now = w.after(events);
    let s = now.nodes[i];
    let l = now.nodes[leader];
    let c = s.committed as int;
    assert(now.node_ok(s));
    assert(now.node_ok(l));
    if c != 0 {
        let (t, k) = choose|t: u64, k: int| #[trigger] now.commit_source(s.log, s.term, c, t, k);
        lemma_leader_has_chosen(now, t, k, l.term);
        lemma_shares_fewer(now.leader_log(l.term), now.leader_log(t), k, c);
    } else {
        assert(l.log.take(0) =~= s.log.take(0));
    }
}

/// State machine safety: whatever happens to a cluster, what two of its nodes
/// have committed agrees as far as both go.
pub proof fn law_committed_entries_agree(w: World, events: Seq<Event>, i: int, j: int)
    requires
        w.is_initial(),
        w.allows(events),
        0 <= i < w.after(events).nodes.len(),
        0 <= j < w.after(events).nodes.len(),
        w.after(events).nodes[i].committed <= w.after(events).nodes[j].committed,
    ensures
        w.after(events).nodes[i].committed <= w.after(events).nodes[i].log.len(),
        w.after(events).nodes[i].committed <= w.after(events).nodes[j].log.len(),
        w.after(events).nodes[i].log.take(w.after(events).nodes[i].committed as int)
            == w.after(events).nodes[j].log.take(w.after(events).nodes[i].committed as int),
{
    lemma_run(w, events);
    let now = w.after(events);
    let a = now.nodes[i];
    let b = now.nodes[j];
    let c = a.committed as int;
    let d = b.committed as int;
    assert(now.node_ok(a));
    assert(now.node_ok(b));
    if c != 0 {
        let (t, k) = choose|t: u64, k: int| #[trigger] now.commit_source(a.log, a.term, c, t, k);
        let (u, m) = choose|u: u64, m: int| #[trigger] now.commit_source(b.log, b.term, d, u, m);
        lemma_shares_fewer(b.log, now.leader_log(u), d, c);
        if t <= u {
            lemma_leader_has_chosen(now, t, k, u);
            lemma_shares_fewer(now.leader_log(u), now.leader_log(t), k, c);
        } else {
            lemma_leader_has_chosen(now, u, m, t);
            lemma_shares_fewer(now.leader_log(t), now.leader_log(u), m, c);
        }
    } else {
        assert(a.log.take(0) =~= b.log.take(0));
    }
}

} // verus!
