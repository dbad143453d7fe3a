//! Each thing that can happen to a node keeps the cluster consistent.
use vstd::prelude::*;

use crate::communication::Outgoing;
use crate::consistency::shares;
use crate::frame::{
    lemma_acked_stable, lemma_commit_stable, lemma_holds_stable, lemma_inv_kept, lemma_log_stable,
    lemma_new_acks, lemma_spoiled_stable, lemma_voted_stable,
};
use crate::model::NodeModel;
use crate::proto::{AppendResponse, EntryView, MessageView, RequestVoteResponse};
use crate::quorum::Vote;
use crate::role::RoleView;
use crate::world::{Event, Reign, World};

verus! {

/// What node `s` sends speaks for itself only: it acknowledges in its own term
/// and reports the vote it knows of.
pub open spec fn sent_fair(s: NodeModel, sent: Seq<Outgoing>) -> bool {
    forall|o: Outgoing| #[trigger]
        sent.contains(o) ==> match o {
            Outgoing::To(MessageView::AppendResponse(m)) => m.success ==> m.from == s.id && m.term
                == s.term,
            Outgoing::To(MessageView::RequestVoteResponse(m)) => m.voted_for != 0 ==> m.from
                == s.id && m.term == s.term && m.voted_for == s.voted_for,
            _ => true,
        }
}

/// Nothing that is sent acknowledges an `Append`.
pub open spec fn no_ack(sent: Seq<Outgoing>) -> bool {
    forall|o: Outgoing| #[trigger]
        sent.contains(o) ==> !(o matches Outgoing::To(MessageView::AppendResponse(m)) && m.success)
}

/// The node `s` may become `t` as far as its identity, term and vote go.
pub open spec fn proceeds(s: NodeModel, t: NodeModel) -> bool {
    &&& t.id == s.id
    &&& t.cluster_size == s.cluster_size
    &&& t.wf()
    &&& t.term >= s.term
    &&& t.term == s.term ==> {
        &&& s.voted_for != 0 ==> t.voted_for == s.voted_for
        &&& s.role is Leader ==> t.role is Leader
    }
    &&& t.role is Candidate && t.term != s.term ==> t.voted_for == t.id
}

/// What is new in the network is what the node sent.
pub proof fn lemma_new_out(w: World, e: Event, o: Outgoing)
    requires
        w.next(e).net.contains(o),
        !w.net.contains(o),
    ensures
        e.effect(w.nodes[e.node()]).sent.contains(o),
{
}

/// What the node sent is in the network.
pub proof fn lemma_sent_out(w: World, e: Event, o: Outgoing)
    requires
        e.effect(w.nodes[e.node()]).sent.contains(o),
    ensures
        w.next(e).net.contains(o),
{
}

pub proof fn lemma_moves(w: World, e: Event)
    requires
        w.inv(),
        w.enabled(e),
        proceeds(w.nodes[e.node()], e.effect(w.nodes[e.node()]).node),
        sent_fair(e.effect(w.nodes[e.node()]).node, e.effect(w.nodes[e.node()]).sent),
        w.reigns_grow(
            w.next(e),
            e.effect(w.nodes[e.node()]).node.id,
            e.effect(w.nodes[e.node()]).node.term,
        ),
    ensures
        w.moves(w.next(e), e.node()),
{
    let s = w.nodes[e.node()];
    let f = e.effect(s);
    let next = w.next(e);
    assert(next.nodes[e.node()] == f.node);
    assert forall|m: AppendResponse| #[trigger] next.has_ack(m) && m.success implies w.has_ack(m)
        || (m.from == f.node.id && m.term == f.node.term) by {
        if !w.has_ack(m) {
            lemma_new_out(w, e, Outgoing::To(MessageView::AppendResponse(m)));
        }
    }
    assert forall|m: RequestVoteResponse| #[trigger]
        next.has_ballot(m) && m.voted_for != 0 implies w.has_ballot(m) || (m.from == f.node.id
        && m.term == f.node.term && m.voted_for == f.node.voted_for) by {
        if !w.has_ballot(m) {
            lemma_new_out(w, e, Outgoing::To(MessageView::RequestVoteResponse(m)));
        }
    }
    assert(w.campaigns_grow(next, f.node.id, f.node.term)) by {
        if f.node.role is Candidate && f.node.term != s.term {
            if w.campaigned(f.node.term, f.node.id) {
                assert(w.voted(f.node.id, f.node.term, f.node.id));
                assert(w.vote_known(f.node.id, f.node.term, f.node.id));
                assert(false);
            }
        }
    }
}

/// The vote of node `n` is on record, or is being sent.
pub open spec fn vote_told(w: World, n: NodeModel, sent: Seq<Outgoing>) -> bool {
    n.voted_for != 0 ==> {
        ||| w.voted(n.id, n.term, n.voted_for)
        ||| exists|m: RequestVoteResponse|
            #![trigger sent.contains(Outgoing::To(MessageView::RequestVoteResponse(m)))]
            sent.contains(Outgoing::To(MessageView::RequestVoteResponse(m))) && m.from == n.id
                && m.term == n.term && m.voted_for == n.voted_for
    }
}

/// A move that leaves the log alone and makes nobody a leader.
pub open spec fn settles(w: World, s: NodeModel, t: NodeModel) -> bool {
    &&& proceeds(s, t)
    &&& t.log == s.log
    &&& w.commit_ok(t.log, t.term, t.committed as int)
    &&& match t.role {
        RoleView::Follower { promotable, ticks } => true,
        RoleView::Candidate { ticks, votes } => t.term == s.term && s.role is Candidate
            && w.candidate_ok(t, votes),
        RoleView::Leader { ticks, progress } => t.term == s.term && s.role is Leader
            && t.voted_for == s.voted_for && w.progress_ok(t),
    }
}

pub proof fn lemma_settles(w: World, e: Event)
    requires
        w.inv(),
        w.enabled(e),
        settles(w, w.nodes[e.node()], e.effect(w.nodes[e.node()]).node),
        sent_fair(e.effect(w.nodes[e.node()]).node, e.effect(w.nodes[e.node()]).sent),
        no_ack(e.effect(w.nodes[e.node()]).sent),
        vote_told(w, e.effect(w.nodes[e.node()]).node, e.effect(w.nodes[e.node()]).sent),
    ensures
        w.moves(w.next(e), e.node()),
        w.next(e).reigns == w.reigns,
        w.next(e).campaigns == w.campaigns,
        w.next(e).node_ok(e.effect(w.nodes[e.node()]).node),
        forall|t: u64, k: int| #[trigger]
            w.next(e).acked(w.nodes[e.node()].id, t, k) ==> {
                let n = e.effect(w.nodes[e.node()]).node;
                n.term >= t && w.next(e).kept(n.log, n.term, t, k)
            },
{
    let i = e.node();
    let s = w.nodes[i];
    let f = e.effect(s);
    let n = f.node;
    let next = w.next(e);
    assert(w.node_ok(s));
    assert(next.reigns =~= w.reigns) by {
        if n.role is Leader {
            assert(w.reigns[n.term] == Reign { log: n.log, ..w.reigns[n.term] });
        }
    }
    assert forall|t: u64| #[trigger] w.led(t) implies shares(
        next.leader_log(t),
        w.leader_log(t),
        w.leader_log(t).len() as int,
    ) by {}
    lemma_moves(w, e);
    lemma_log_stable(w, next, i, n.log, s.term as int);
    lemma_commit_stable(w, next, i, n.log, n.term, n.committed as int);
    if n.voted_for != 0 {
        if w.voted(n.id, n.term, n.voted_for) {
            lemma_voted_stable(w, next, i, n.id, n.term, n.voted_for);
        } else {
            let m = choose|m: RequestVoteResponse|
                #![trigger f.sent.contains(Outgoing::To(MessageView::RequestVoteResponse(m)))]
                f.sent.contains(Outgoing::To(MessageView::RequestVoteResponse(m))) && m.from
                    == n.id && m.term == n.term && m.voted_for == n.voted_for;
            lemma_sent_out(w, e, Outgoing::To(MessageView::RequestVoteResponse(m)));
            assert(next.has_ballot(m));
        }
    }
    match n.role {
        RoleView::Follower { promotable, ticks } => {},
        RoleView::Candidate { ticks, votes } => {
            assert forall|a: int|
                0 <= a < votes.len() && #[trigger] votes[a] == Vote::For implies next.voted(
                (a + 1) as u64,
                n.term,
                n.id,
            ) by {
                lemma_voted_stable(w, next, i, (a + 1) as u64, n.term, n.id);
            }
        },
        RoleView::Leader { ticks, progress } => {
            lemma_progress_stable(w, next, i, n);
        },
    }
    assert forall|t: u64, k: int| #[trigger] next.acked(s.id, t, k) implies n.term >= t && next.kept(
        n.log,
        n.term,
        t,
        k,
    ) by {
        if !w.acked(s.id, t, k) {
            let m = choose|m: AppendResponse| #[trigger]
                next.has_ack(m) && m.success && m.from == s.id && m.term == t && m.last_index >= k;
            lemma_new_out(w, e, Outgoing::To(MessageView::AppendResponse(m)));
            assert(false);
        }
        lemma_kept_stable(w, next, i, s.log, s.term, t, k, n.term);
    }
}

/// What a node kept it keeps in a later term, as long as its log is the same.
pub proof fn lemma_kept_stable(
    w: World,
    next: World,
    i: int,
    log: Seq<EntryView>,
    term: u64,
    t: u64,
    k: int,
    later: u64,
)
    requires
        w.moves(next, i),
        w.led(t),
        1 <= k <= w.leader_log(t).len(),
        w.kept(log, term, t, k),
        term <= later,
    ensures
        next.kept(log, later, t, k),
{
    lemma_holds_stable(w, next, i, log, t, k);
    if w.spoiled(t, k, term + 1) {
        lemma_spoiled_stable(w, next, i, t, k, term + 1);
        let b = choose|b: u64|
            #![trigger next.led(b)]
            next.led(b) && t < b < term + 1 && !next.holds(next.start_log(b), t, k);
        assert(next.led(b) && t < b < later + 1);
    }
}

pub proof fn lemma_progress_stable(w: World, next: World, i: int, n: NodeModel)
    requires
        w.moves(next, i),
        w.progress_ok(n),
    ensures
        next.progress_ok(n),
{
    assert forall|a: int| 0 <= a < n.role->progress.len() implies {
        let p = #[trigger] n.role->progress[a];
        &&& 1 <= p.next_index <= n.log.len() + 1
        &&& p.match_index == 0 || next.acked((a + 1) as u64, n.term, p.match_index as int)
    } by {
        let p = n.role->progress[a];
        if p.match_index != 0 {
            lemma_acked_stable(w, next, i, (a + 1) as u64, n.term, p.match_index as int);
        }
    }
}

/// A commit that was right in a term is right in a later one.
pub proof fn lemma_commit_later(w: World, log: Seq<EntryView>, term: u64, later: u64, c: int)
    requires
        w.commit_ok(log, term, c),
        term <= later,
    ensures
        w.commit_ok(log, later, c),
{
    if c != 0 {
        let (t, k) = choose|t: u64, k: int| #[trigger] w.commit_source(log, term, c, t, k);
        assert(w.commit_source(log, later, c, t, k));
    }
}

/// What a leader sends of its log is right.
pub proof fn lemma_append_from_ok(w: World, s: NodeModel, next_index: u64, to: u64)
    requires
        w.node_ok(s),
        s.role is Leader,
        s.wf(),
        1 <= next_index <= s.log.len() + 1,
        to != s.id,
    ensures
        w.append_ok(s.append_from(next_index, to)),
{
    let m = s.append_from(next_index, to);
    assert(m.last_index == next_index - 1);
    assert(m.entries =~= s.log.subrange(m.last_index as int, m.last_index + m.entries.len()));
    if s.committed != 0 {
        let (t, k) = choose|t: u64, k: int| #[trigger]
            w.commit_source(s.log, s.term, s.committed as int, t, k);
        assert(s.committed <= s.log.len());
    }
}

/// What a leader sends to a follower is right.
pub proof fn lemma_append_for_ok(w: World, s: NodeModel, to: u64)
    requires
        w.node_ok(s),
        s.role is Leader,
        s.wf(),
        1 <= to <= s.role->progress.len(),
        to != s.id,
    ensures
        w.append_ok(s.append_for(to)),
{
    let p = s.role->progress[to - 1];
    assert(1 <= p.next_index <= s.log.len() + 1);
    lemma_append_from_ok(w, s, p.next_index, to);
}

/// The consistent cluster moves on consistently, where a move settles and what
/// it sends is right.
pub proof fn lemma_settles_well(w: World, e: Event)
    requires
        w.inv(),
        w.enabled(e),
        settles(w, w.nodes[e.node()], e.effect(w.nodes[e.node()]).node),
        sent_fair(e.effect(w.nodes[e.node()]).node, e.effect(w.nodes[e.node()]).sent),
        no_ack(e.effect(w.nodes[e.node()]).sent),
        vote_told(w, e.effect(w.nodes[e.node()]).node, e.effect(w.nodes[e.node()]).sent),
        w.moves(w.next(e), e.node()) && w.next(e).node_ok(e.effect(w.nodes[e.node()]).node)
            ==> forall|o: Outgoing| #[trigger]
            e.effect(w.nodes[e.node()]).sent.contains(o) ==> w.next(e).out_ok(o),
        forall|m: RequestVoteResponse|
            #![trigger e.effect(w.nodes[e.node()]).sent.contains(Outgoing::To(MessageView::RequestVoteResponse(m)))]
            e.effect(w.nodes[e.node()]).sent.contains(
                Outgoing::To(MessageView::RequestVoteResponse(m)),
            ) && m.voted_for != 0 && !w.led(m.term) ==> {
                &&& w.campaigned(m.term, m.voted_for)
                &&& w.vote_safe(m.from, m.term, w.campaigns[(m.term, m.voted_for)])
            },
    ensures
        w.next(e).inv(),
        w.moves(w.next(e), e.node()),
{
    let i = e.node();
    let s = w.nodes[i];
    let n = e.effect(s).node;
    let next = w.next(e);
    lemma_settles(w, e);
    assert(next.nodes[i] == n);
    assert forall|o: Outgoing| #[trigger]
        next.net.contains(o) && !w.net.contains(o) implies next.out_ok(o) by {
        lemma_new_out(w, e, o);
    }
    assert forall|c: u64| #[trigger]
        next.voted(n.id, n.term, c) && !w.voted(n.id, n.term, c) && !next.led(n.term) implies {
        &&& next.campaigned(n.term, c)
        &&& next.vote_safe(n.id, n.term, next.campaigns[(n.term, c)])
    } by {
        let m = choose|m: RequestVoteResponse| #[trigger]
            next.has_ballot(m) && m.from == n.id && m.term == n.term && m.voted_for == c && c != 0;
        if w.has_ballot(m) {
            assert(w.voted(n.id, n.term, c));
        }
        lemma_new_out(w, e, Outgoing::To(MessageView::RequestVoteResponse(m)));
        assert(!w.led(m.term));
        let log = w.campaigns[(n.term, c)];
        assert(w.vote_safe(n.id, n.term, log));
        assert forall|b: u64, k: int|
            b < n.term && #[trigger] next.acked(n.id, b, k) && next.leader_log(b)[k - 1].term
                == b implies next.holds(log, b, k) || next.spoiled(b, k, n.term as int) by {
            lemma_new_acks(w, next, i, n.id, b, k);
            assert(w.acked(n.id, b, k));
            lemma_holds_stable(w, next, i, log, b, k);
            if w.spoiled(b, k, n.term as int) {
                lemma_spoiled_stable(w, next, i, b, k, n.term as int);
            }
        }
    }
    assert(w.moves_well(next, i));
    lemma_inv_kept(w, next, i);
}

} // verus!
