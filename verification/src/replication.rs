//! Votes, acknowledgements and replicated entries keep the cluster consistent.
use vstd::prelude::*;

use crate::communication::Outgoing;
use crate::completeness::{
    lemma_backed_agree, lemma_backed_matching, lemma_leader_has_chosen, lemma_merge,
    lemma_shares_fewer, lemma_start_in_log,
};
use crate::consistency::shares;
use crate::elections::lemma_elected;
use crate::frame::{
    lemma_commit_stable, lemma_holds_stable, lemma_inv_kept, lemma_log_stable, lemma_new_acks,
    lemma_voted_stable,
};
use crate::model::{up_to_date, NodeModel};
use crate::proto::{
    AppendResponse, AppendView, EntryView, MessageView, RequestVote, RequestVoteResponse,
};
use crate::quorum::{election_state, ElectionState, Vote};
use crate::role::RoleView;
use crate::steps::{
    lemma_commit_later, lemma_kept_stable, lemma_moves, lemma_new_out, lemma_settles_well, settles,
};
use crate::storage::{put_all, well_indexed};
use crate::world::{Event, World};

verus! {

/// A candidate whose log is at least as up to date as that of a node has all
/// that the node acknowledged before.
pub proof fn lemma_grant(w: World, i: int, m: RequestVote)
    requires
        w.inv(),
        0 <= i < w.nodes.len(),
        w.request_ok(m),
        w.nodes[i].term <= m.candidate_term,
        !w.led(m.candidate_term),
        up_to_date(m.last_term, m.last_index, w.nodes[i].log),
    ensures
        w.vote_safe(w.nodes[i].id, m.candidate_term, w.campaigns[(m.candidate_term, m.from)]),
{
    let s = w.nodes[i];
    let t = m.candidate_term;
    let log = w.campaigns[(t, m.from)];
    assert(w.campaigned(t, m.from));
    assert(w.log_ok(log, t - 1));
    assert(w.node_ok(s));
    assert(s.id == i + 1);
    assert forall|b: u64, k: int|
        b < t && #[trigger] w.acked(s.id, b, k) && w.leader_log(b)[k - 1].term == b implies w.holds(
        log,
        b,
        k,
    ) || w.spoiled(b, k, t as int) by {
        assert(w.kept(s.log, s.term, b, k));
        if w.spoiled(b, k, s.term + 1) {
            let x = choose|x: u64|
                #![trigger w.led(x)]
                w.led(x) && b < x < s.term + 1 && !w.holds(w.start_log(x), b, k);
            assert(x != t);
            assert(w.led(x) && b < x < t);
        } else {
            assert(s.log.take(k)[k - 1] == w.leader_log(b).take(k)[k - 1]);
            assert(s.log[k - 1].term == b);
            assert(s.log[k - 1].term <= s.log[s.log.len() - 1].term);
            let li = log.len() as int;
            assert(log.len() > 0);
            let lt = log[li - 1].term;
            assert(w.led(lt) && w.holds(log, lt, li));
            if lt == b {
                lemma_shares_fewer(log, w.leader_log(b), li, k);
            } else {
                assert(b < lt < t);
                if w.holds(w.start_log(lt), b, k) {
                    lemma_start_in_log(w, b, k, lt);
                    assert(w.reign_ok(lt));
                    let r = w.reigns[lt];
                    assert(log.take(li)[li - 1] == r.log.take(li)[li - 1]);
                    if li <= r.start.len() {
                        assert(r.start.take(r.start.len() as int)[li - 1] == r.log.take(
                            r.start.len() as int,
                        )[li - 1]);
                        assert(r.start[li - 1].term < lt);
                        assert(false);
                    }
                    lemma_shares_fewer(log, r.log, li, k);
                }
            }
        }
    }
}

/// A node answers a request for its vote.
pub proof fn lemma_on_vote_request(w: World, e: Event, m: RequestVote)
    requires
        w.inv(),
        w.enabled(e),
        w.request_ok(m),
        e.effect(w.nodes[e.node()]) == w.nodes[e.node()].on_vote_request(m),
        m.from != w.nodes[e.node()].id,
    ensures
        w.next(e).inv(),
        w.moves(w.next(e), e.node()),
{
    let i = e.node();
    let s = w.nodes[i];
    let f = e.effect(s);
    let n = f.node;
    assert(w.node_ok(s));
    assert(s.id == i + 1);
    assert(w.campaigned(m.candidate_term, m.from));
    assert(w.voted(m.from, m.candidate_term, m.from));
    assert(w.vote_known(m.from, m.candidate_term, m.from));
    lemma_commit_later(w, s.log, s.term, n.term, s.committed as int);
    let reply = f.sent[0]->To_0->RequestVoteResponse_0;
    assert(f.sent == seq![Outgoing::To(MessageView::RequestVoteResponse(reply))]);
    assert(f.sent.contains(Outgoing::To(MessageView::RequestVoteResponse(reply))));
    assert(settles(w, s, n));
    assert forall|x: RequestVoteResponse|
        #![trigger f.sent.contains(Outgoing::To(MessageView::RequestVoteResponse(x)))]
        f.sent.contains(Outgoing::To(MessageView::RequestVoteResponse(x))) && x.voted_for != 0
            && !w.led(x.term) implies {
        &&& w.campaigned(x.term, x.voted_for)
        &&& w.vote_safe(x.from, x.term, w.campaigns[(x.term, x.voted_for)])
    } by {
        assert(x == reply);
        if s.term == n.term && s.voted_for != 0 {
            assert(w.voted(s.id, s.term, s.voted_for));
        } else {
            lemma_grant(w, i, m);
        }
    }
    lemma_settles_well(w, e);
}

/// A candidate counts a vote.
pub proof fn lemma_on_vote_response(w: World, e: Event, m: RequestVoteResponse, timeout: u64)
    requires
        w.inv(),
        w.enabled(e),
        w.has_ballot(m),
        w.nodes[e.node()].can_step(MessageView::RequestVoteResponse(m)),
        e matches Event::Deliver { node, message, timeout: _ } && message.message()
            == MessageView::RequestVoteResponse(m),
        e.effect(w.nodes[e.node()]) == w.nodes[e.node()].on_vote_response(m, timeout),
    ensures
        w.next(e).inv(),
        w.moves(w.next(e), e.node()),
{
    let i = e.node();
    let s = w.nodes[i];
    let f = e.effect(s);
    let n = f.node;
    assert(w.node_ok(s));
    assert(s.id == i + 1);
    if m.term == s.term && s.role is Candidate {
        let votes = e.ballots(s);
        assert(votes.len() == w.nodes.len());
        assert forall|j: int| 0 <= j < votes.len() && #[trigger] votes[j] == Vote::For implies w.voted(
            (j + 1) as u64,
            s.term,
            s.id,
        ) by {
            if j == m.from - 1 {
                assert(w.has_ballot(m) && m.from == j + 1 && m.voted_for == s.id);
            } else {
                assert(s.role->votes[j] == Vote::For);
            }
        }
        let node = NodeModel {
            role: RoleView::Candidate { ticks: s.role->Candidate_ticks, votes },
            ..s
        };
        if election_state(votes) == ElectionState::Won {
            assert(node.become_leader(timeout) == s.become_leader(timeout));
            lemma_elected(w, e, timeout);
            return;
        }
        assert(n.log == s.log && n.term == s.term && n.voted_for == s.voted_for);
        if n.role is Candidate {
            assert(w.candidate_ok(n, votes));
        }
    }
    lemma_commit_later(w, s.log, s.term, n.term, s.committed as int);
    assert(f.sent == Seq::<Outgoing>::empty());
    assert(settles(w, s, n));
    lemma_settles_well(w, e);
}

/// What comes of a log into which a part of a leader's log is merged: it shares
/// with the leader all that it shared, and the new part.
pub proof fn lemma_merged(l: Seq<EntryView>, m: Seq<EntryView>, p: int, n: int)
    requires
        0 <= p <= l.len(),
        0 <= n,
        p + n <= m.len(),
        m.len() < u64::MAX,
        l.take(p) == m.take(p),
        well_indexed(m),
        crate::completeness::matching(l, m),
    ensures
        shares(put_all(l, m.subrange(p, p + n)), m, p + n),
        forall|k: int| #[trigger]
            shares(l, m, k) ==> shares(put_all(l, m.subrange(p, p + n)), m, k),
{
    let r = put_all(l, m.subrange(p, p + n));
    lemma_merge(l, m, p, n);
    assert forall|k: int| #[trigger] shares(l, m, k) implies shares(r, m, k) by {
        if r != l {
            if k > p + n {
                lemma_shares_fewer(l, m, k, p + n);
            } else {
                assert(m.take(p + n).take(k) =~= m.take(k));
            }
        }
    }
    assert(m.take(p + n).take(p + n) =~= m.take(p + n));
    if shares(l, m, p + n) {
        assert(r == l);
    } else {
        assert(r == m.take(p + n));
    }
}

/// A part of a log is as well as the whole.
pub proof fn lemma_take_log_ok(w: World, log: Seq<EntryView>, last: int, k: int)
    requires
        w.log_ok(log, last),
        0 <= k <= log.len(),
    ensures
        w.log_ok(log.take(k), last),
{
    let part = log.take(k);
    assert forall|j: int| 0 <= j < part.len() implies {
        let t = (#[trigger] part[j]).term;
        &&& w.led(t)
        &&& w.holds(part, t, j + 1)
    } by {
        let t = log[j].term;
        assert(w.led(t) && w.holds(log, t, j + 1));
        assert(part.take(j + 1) =~= log.take(j + 1));
    }
}

/// A follower whose log matches takes the entries of the leader.
pub proof fn lemma_append_taken(w: World, e: Event, m: AppendView)
    requires
        w.inv(),
        w.enabled(e),
        w.append_ok(m),
        m.to == w.nodes[e.node()].id,
        w.nodes[e.node()].term <= m.leader_term,
        w.nodes[e.node()].has_entry(m.last_index, m.last_term),
        w.nodes[e.node()].can_step(MessageView::Append(m)),
        e.effect(w.nodes[e.node()]) == w.nodes[e.node()].on_append(m),
    ensures
        w.next(e).inv(),
        w.moves(w.next(e), e.node()),
{
    let i = e.node();
    let s = w.nodes[i];
    let f = e.effect(s);
    let n = f.node;
    let next = w.next(e);
    let t = m.leader_term;
    let lead = w.leader_log(t);
    let p = m.last_index as int;
    let len = m.entries.len() as int;
    assert(w.node_ok(s));
    assert(s.id == i + 1);
    assert(w.reign_ok(t));
    assert(shares(s.log, lead, p)) by {
        if p == 0 {
            assert(s.log.take(0) =~= lead.take(0));
        } else {
            lemma_backed_agree(w, s.log, lead, p - 1);
        }
    }
    lemma_backed_matching(w, s.log, lead);
    lemma_merge(s.log, lead, p, len);
    lemma_merged(s.log, lead, p, len);
    let merged = put_all(s.log, m.entries);
    assert(n.log == merged);
    assert(n.term == t && n.id == s.id);
    if s.role is Leader && s.term == t {
        assert(w.leader_ok(s));
        assert(false);
    }
    assert(w.log_ok(merged, t as int)) by {
        lemma_take_log_ok(w, lead, t as int, p + len);
    }
    assert(n.wf());
    let reply = AppendResponse {
        to: m.from,
        from: s.id,
        term: t,
        success: true,
        last_index: (p + len) as u64,
    };
    assert(f.sent == seq![Outgoing::To(MessageView::AppendResponse(reply))]);
    assert(next.reigns == w.reigns);
    assert(next.campaigns == w.campaigns);
    assert forall|x: u64| #[trigger] w.led(x) implies shares(
        next.leader_log(x),
        w.leader_log(x),
        w.leader_log(x).len() as int,
    ) by {}
    lemma_moves(w, e);
    assert(next.nodes[i] == n);
    lemma_log_stable(w, next, i, merged, t as int);
    // The entries that were safe are still there, and those that the leader
    // says are safe are there now.
    assert(w.commit_ok(merged, t, n.committed as int)) by {
        let known = crate::model::min(m.leader_commit as int, p + len);
        if n.committed != 0 {
            if n.committed == s.committed {
                let c = s.committed as int;
                let (x, k) = choose|x: u64, k: int| #[trigger]
                    w.commit_source(s.log, s.term, c, x, k);
                lemma_leader_has_chosen(w, x, k, t);
                lemma_shares_fewer(lead, w.leader_log(x), k, c);
                assert(shares(s.log, lead, c));
                assert(shares(merged, lead, c));
                assert(w.commit_source(merged, t, c, x, k));
            } else {
                assert(n.committed == known);
                let (x, k) = choose|x: u64, k: int| #[trigger]
                    w.commit_source(lead, t, m.leader_commit as int, x, k);
                lemma_shares_fewer(lead, w.leader_log(x), m.leader_commit as int, known);
                lemma_shares_fewer(merged, lead, p + len, known);
                assert(w.commit_source(merged, t, known, x, k));
            }
        }
    }
    lemma_commit_stable(w, next, i, merged, t, n.committed as int);
    if n.voted_for != 0 {
        lemma_voted_stable(w, next, i, n.id, n.term, n.voted_for);
    }
    if n.role is Candidate {
        let votes = n.role->votes;
        assert(n.role == s.role);
        assert forall|a: int|
            0 <= a < votes.len() && #[trigger] votes[a] == Vote::For implies next.voted(
            (a + 1) as u64,
            n.term,
            n.id,
        ) by {
            lemma_voted_stable(w, next, i, (a + 1) as u64, n.term, n.id);
        }
    }
    assert(next.node_ok(n));
    assert forall|o: Outgoing| #[trigger]
        next.net.contains(o) && !w.net.contains(o) implies next.out_ok(o) by {
        lemma_new_out(w, e, o);
    }
    assert forall|c: u64| #[trigger]
        next.voted(n.id, n.term, c) && !w.voted(n.id, n.term, c) && !next.led(n.term) implies {
        &&& next.campaigned(n.term, c)
        &&& next.vote_safe(n.id, n.term, next.campaigns[(n.term, c)])
    } by {
        assert(next.led(n.term));
    }
    assert forall|x: u64, k: int| #[trigger] next.acked(n.id, x, k) implies n.term >= x && next.kept(
        n.log,
        n.term,
        x,
        k,
    ) by {
        if w.acked(n.id, x, k) {
            assert(w.kept(s.log, s.term, x, k));
            lemma_kept_stable(w, next, i, s.log, s.term, x, k, n.term);
            if w.holds(s.log, x, k) {
                if x == t || w.holds(w.start_log(t), x, k) {
                    if x != t {
                        lemma_start_in_log(w, x, k, t);
                    }
                    assert(shares(s.log, lead, k));
                    assert(shares(merged, lead, k));
                    assert(w.holds(merged, x, k));
                    lemma_holds_stable(w, next, i, merged, x, k);
                } else {
                    lemma_holds_stable(w, next, i, w.start_log(t), x, k);
                    assert(next.led(t) && x < t < n.term + 1);
                    assert(next.spoiled(x, k, n.term + 1));
                }
            }
        } else {
            lemma_new_acks(w, next, i, n.id, x, k);
            let a = choose|a: AppendResponse| #[trigger]
                next.has_ack(a) && a.success && a.from == n.id && a.term == x && a.last_index >= k;
            if !w.has_ack(a) {
                lemma_new_out(w, e, Outgoing::To(MessageView::AppendResponse(a)));
                assert(a == reply);
            }
            lemma_shares_fewer(merged, lead, p + len, k);
            assert(w.holds(merged, x, k));
            lemma_holds_stable(w, next, i, merged, x, k);
        }
    }
    assert(w.moves_well(next, i));
    lemma_inv_kept(w, next, i);
}

} // verus!
