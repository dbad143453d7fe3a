//! What stays true of a cluster when one of its nodes moves on.
use vstd::prelude::*;

use crate::communication::Outgoing;
use crate::consistency::shares;
use crate::model::NodeModel;
use crate::proto::{AppendResponse, AppendView, EntryView, MessageView, RequestVoteResponse};
use crate::quorum::Vote;
use crate::role::RoleView;
use crate::world::World;

verus! {

impl World {
    /// The reigns of `next` are those of this world, but that the reign of
    /// node `id` in term `term` may have begun or its log have grown.
    pub open spec fn reigns_grow(self, next: World, id: u64, term: u64) -> bool {
        &&& forall|t: u64| #[trigger]
            self.led(t) ==> {
                &&& next.led(t)
                &&& next.reigns[t].leader == self.reigns[t].leader
                &&& next.reigns[t].voters == self.reigns[t].voters
                &&& next.reigns[t].start == self.reigns[t].start
                &&& shares(next.leader_log(t), self.leader_log(t), self.leader_log(t).len() as int)
            }
        &&& forall|t: u64| #[trigger]
            next.led(t) ==> {
                ||| self.led(t) && next.reigns[t] == self.reigns[t]
                ||| t == term && next.reigns[t].leader == id
            }
    }

    /// The campaigns of `next` are those of this world, and perhaps that of
    /// node `id` in term `term`.
    pub open spec fn campaigns_grow(self, next: World, id: u64, term: u64) -> bool {
        &&& forall|t: u64, c: u64| #[trigger]
            self.campaigned(t, c) ==> next.campaigned(t, c) && next.campaigns[(t, c)]
                == self.campaigns[(t, c)]
        &&& forall|t: u64, c: u64| #[trigger]
            next.campaigned(t, c) ==> self.campaigned(t, c) || (t == term && c == id)
    }

    /// All that was sent still is; node `id` in term `term` acknowledged and
    /// voted for nothing but what it now stands by.
    pub open spec fn net_grows(self, next: World, s: NodeModel) -> bool {
        &&& self.net.subset_of(next.net)
        &&& forall|m: AppendResponse| #[trigger]
            next.has_ack(m) && m.success ==> self.has_ack(m) || (m.from == s.id && m.term == s.term)
        &&& forall|m: RequestVoteResponse| #[trigger]
            next.has_ballot(m) && m.voted_for != 0 ==> self.has_ballot(m) || (m.from == s.id
                && m.term == s.term && m.voted_for == s.voted_for)
    }

    /// The node at `i` moved on, and the others stood still.
    pub open spec fn moves(self, next: World, i: int) -> bool {
        &&& 0 <= i < self.nodes.len()
        &&& next.nodes == self.nodes.update(i, next.nodes[i])
        &&& next.nodes[i].id == self.nodes[i].id
        &&& next.nodes[i].cluster_size == self.nodes[i].cluster_size
        &&& next.nodes[i].wf()
        &&& next.nodes[i].term >= self.nodes[i].term
        &&& next.nodes[i].term == self.nodes[i].term ==> {
            &&& self.nodes[i].voted_for != 0 ==> next.nodes[i].voted_for == self.nodes[i].voted_for
            &&& self.nodes[i].role is Leader ==> next.nodes[i].role is Leader
        }
        &&& self.reigns_grow(next, next.nodes[i].id, next.nodes[i].term)
        &&& self.campaigns_grow(next, next.nodes[i].id, next.nodes[i].term)
        &&& next.campaigned(next.nodes[i].term, next.nodes[i].id) && !self.campaigned(
            next.nodes[i].term,
            next.nodes[i].id,
        ) ==> next.nodes[i].voted_for == next.nodes[i].id
        &&& self.net_grows(next, next.nodes[i])
    }
}

/// A prefix of a log that a leader had at some time is one that it always has.
pub proof fn lemma_holds_stable(w: World, next: World, i: int, log: Seq<EntryView>, t: u64, k: int)
    requires
        w.moves(next, i),
        w.led(t),
        k <= w.leader_log(t).len(),
    ensures
        next.led(t),
        k <= next.leader_log(t).len(),
        w.holds(log, t, k) <==> next.holds(log, t, k),
        k >= 0 ==> next.leader_log(t).take(k) == w.leader_log(t).take(k),
        1 <= k ==> next.leader_log(t)[k - 1] == w.leader_log(t)[k - 1],
        next.start_log(t) == w.start_log(t),
{
    let a = w.leader_log(t);
    let b = next.leader_log(t);
    let n = a.len() as int;
    assert(shares(b, a, n));
    if k >= 0 {
        assert(a.take(n) =~= a);
        assert(b.take(k) =~= b.take(n).take(k));
        assert(a.take(k) =~= a.take(n).take(k));
    }
    if 1 <= k {
        assert(b.take(k)[k - 1] == a.take(k)[k - 1]);
    }
}

pub proof fn lemma_spoiled_stable(w: World, next: World, i: int, t: u64, k: int, upto: int)
    requires
        w.moves(next, i),
        w.led(t),
        k <= w.leader_log(t).len(),
        w.spoiled(t, k, upto),
    ensures
        next.spoiled(t, k, upto),
{
    let b = choose|b: u64|
        #![trigger w.led(b)]
        w.led(b) && t < b < upto && !w.holds(w.start_log(b), t, k);
    lemma_holds_stable(w, next, i, w.start_log(b), t, k);
    assert(next.led(b));
}

pub proof fn lemma_acked_stable(w: World, next: World, i: int, v: u64, t: u64, k: int)
    requires
        w.moves(next, i),
        w.acked(v, t, k),
    ensures
        next.acked(v, t, k),
{
    lemma_holds_stable(w, next, i, Seq::empty(), t, k);
    if w.reigns[t].leader != v {
        let m = choose|m: AppendResponse| #[trigger]
            w.has_ack(m) && m.success && m.from == v && m.term == t && m.last_index >= k;
        assert(next.has_ack(m));
    }
}

pub proof fn lemma_voted_stable(w: World, next: World, i: int, v: u64, t: u64, c: u64)
    requires
        w.moves(next, i),
        w.voted(v, t, c),
    ensures
        next.voted(v, t, c),
{
    if !(v == c && w.campaigned(t, c)) {
        let m = choose|m: RequestVoteResponse| #[trigger]
            w.has_ballot(m) && m.from == v && m.term == t && m.voted_for == c && c != 0;
        assert(next.has_ballot(m));
    }
}

pub proof fn lemma_chosen_stable(w: World, next: World, i: int, t: u64, k: int)
    requires
        w.moves(next, i),
        w.chosen(t, k),
    ensures
        next.chosen(t, k),
{
    lemma_holds_stable(w, next, i, Seq::empty(), t, k);
    let q = choose|q: Seq<bool>| #[trigger] w.majority(q) && w.all_acked(q, t, k);
    assert(next.majority(q));
    assert forall|j: int| 0 <= j < q.len() && #[trigger] q[j] implies next.acked(
        (j + 1) as u64,
        t,
        k,
    ) by {
        lemma_acked_stable(w, next, i, (j + 1) as u64, t, k);
    }
}

pub proof fn lemma_log_stable(w: World, next: World, i: int, log: Seq<EntryView>, last: int)
    requires
        w.moves(next, i),
        w.log_ok(log, last),
    ensures
        next.log_ok(log, last),
{
    assert forall|j: int| 0 <= j < log.len() implies {
        let t = (#[trigger] log[j]).term;
        &&& next.led(t)
        &&& next.holds(log, t, j + 1)
    } by {
        lemma_holds_stable(w, next, i, log, log[j].term, j + 1);
    }
}

pub proof fn lemma_commit_stable(w: World, next: World, i: int, log: Seq<EntryView>, term: u64, c: int)
    requires
        w.moves(next, i),
        w.commit_ok(log, term, c),
    ensures
        next.commit_ok(log, term, c),
{
    if c != 0 {
        let (t, k) = choose|t: u64, k: int| #[trigger] w.commit_source(log, term, c, t, k);
        lemma_chosen_stable(w, next, i, t, k);
        lemma_holds_stable(w, next, i, log, t, c);
        assert(next.commit_source(log, term, c, t, k));
    }
}

/// A node that stood still is as well as it was.
pub proof fn lemma_node_stable(w: World, next: World, i: int, j: int)
    requires
        w.inv(),
        w.moves(next, i),
        0 <= j < w.nodes.len(),
        j != i,
    ensures
        next.node_ok(next.nodes[j]),
{
    let s = w.nodes[j];
    assert(next.nodes[j] == s);
    assert(w.node_ok(s));
    lemma_log_stable(w, next, i, s.log, s.term as int);
    lemma_commit_stable(w, next, i, s.log, s.term, s.committed as int);
    if s.voted_for != 0 {
        lemma_voted_stable(w, next, i, s.id, s.term, s.voted_for);
    }
    match s.role {
        RoleView::Follower { promotable, ticks } => {},
        RoleView::Candidate { ticks, votes } => {
            assert forall|a: int|
                0 <= a < votes.len() && #[trigger] votes[a] == Vote::For implies next.voted(
                (a + 1) as u64,
                s.term,
                s.id,
            ) by {
                lemma_voted_stable(w, next, i, (a + 1) as u64, s.term, s.id);
            }
            assert(next.candidate_ok(s, votes));
        },
        RoleView::Leader { ticks, progress } => {
            assert(next.led(s.term));
            assert(next.reigns[s.term] == w.reigns[s.term]);
            assert forall|a: int| 0 <= a < s.role->progress.len() implies {
                let p = #[trigger] s.role->progress[a];
                &&& 1 <= p.next_index <= s.log.len() + 1
                &&& p.match_index == 0 || next.acked((a + 1) as u64, s.term, p.match_index as int)
            } by {
                let p = s.role->progress[a];
                if p.match_index != 0 {
                    lemma_acked_stable(w, next, i, (a + 1) as u64, s.term, p.match_index as int);
                }
            }
            assert(next.leader_ok(s));
        },
    }
}

/// What a leader sent stays true.
pub proof fn lemma_append_stable(w: World, next: World, i: int, m: AppendView)
    requires
        w.moves(next, i),
        w.append_ok(m),
    ensures
        next.append_ok(m),
{
    let a = w.leader_log(m.leader_term);
    let b = next.leader_log(m.leader_term);
    let end = m.last_index + m.entries.len();
    lemma_holds_stable(w, next, i, a, m.leader_term, a.len() as int);
    assert(b.subrange(m.last_index as int, end) =~= b.take(a.len() as int).subrange(
        m.last_index as int,
        end,
    ));
    assert(a.take(a.len() as int) =~= a);
    if m.last_index > 0 {
        lemma_holds_stable(w, next, i, a, m.leader_term, m.last_index as int);
    }
    lemma_commit_stable(w, next, i, a, m.leader_term, m.leader_commit as int);
    if m.leader_commit != 0 {
        let c = m.leader_commit as int;
        let (t, k) = choose|t: u64, k: int| #[trigger]
            next.commit_source(a, m.leader_term, c, t, k);
        assert(b.take(c) =~= b.take(a.len() as int).take(c));
        assert(a.take(c) =~= a.take(a.len() as int).take(c));
        assert(next.commit_source(b, m.leader_term, c, t, k));
    }
}

/// A message that was sent stays what it was.
pub proof fn lemma_out_stable(w: World, next: World, i: int, o: Outgoing)
    requires
        w.inv(),
        w.moves(next, i),
        w.net.contains(o),
    ensures
        next.out_ok(o),
{
    assert(w.out_ok(o));
    match o {
        Outgoing::To(m) => match m {
            MessageView::Append(m) => {
                lemma_append_stable(w, next, i, m);
            },
            MessageView::AppendResponse(m) => {
                if m.success {
                    lemma_holds_stable(w, next, i, Seq::empty(), m.term, m.last_index as int);
                    assert(next.nodes[m.from - 1].term >= w.nodes[m.from - 1].term);
                }
            },
            _ => {},
        },
        Outgoing::All(m) => match m {
            MessageView::RequestVote(m) => {
                assert(next.campaigned(m.candidate_term, m.from));
            },
            _ => {},
        },
    }
}

/// Only a node that moved acknowledges anything new, and only in its term.
pub proof fn lemma_new_acks(w: World, next: World, i: int, v: u64, t: u64, k: int)
    requires
        w.inv(),
        w.moves(next, i),
        next.acked(v, t, k),
    ensures
        w.acked(v, t, k) || (v == next.nodes[i].id && t == next.nodes[i].term),
{
    if !(v == next.nodes[i].id && t == next.nodes[i].term) {
        if next.reigns[t].leader != v {
            let m = choose|m: AppendResponse| #[trigger]
                next.has_ack(m) && m.success && m.from == v && m.term == t && m.last_index >= k;
            assert(w.has_ack(m));
            assert(w.out_ok(Outgoing::To(MessageView::AppendResponse(m))));
            assert(w.led(t));
        }
    }
}

/// Only a node that moved casts a new vote, and it is the one it knows of.
pub proof fn lemma_new_votes(w: World, next: World, i: int, v: u64, t: u64, c: u64)
    requires
        w.inv(),
        w.moves(next, i),
        next.voted(v, t, c),
    ensures
        w.voted(v, t, c) || (v == next.nodes[i].id && t == next.nodes[i].term && c
            == next.nodes[i].voted_for && c != 0),
{
    assert(w.nodes[i].id == i + 1);
    if v == c && next.campaigned(t, c) {
    } else {
        let m = choose|m: RequestVoteResponse| #[trigger]
            next.has_ballot(m) && m.from == v && m.term == t && m.voted_for == c && c != 0;
        if w.has_ballot(m) {
            assert(w.voted(v, t, c));
        }
    }
}

/// A vote that was safe to rely on still is: whoever voted in term `t`
/// acknowledges nothing of an earlier term any more.
pub proof fn lemma_vote_safe_stable(w: World, next: World, i: int, v: u64, t: u64, c: u64, log: Seq<EntryView>)
    requires
        w.inv(),
        w.moves(next, i),
        w.voted(v, t, c),
        w.vote_safe(v, t, log),
    ensures
        next.vote_safe(v, t, log),
{
    assert(w.vote_known(v, t, c));
    assert forall|b: u64, k: int|
        b < t && #[trigger] next.acked(v, b, k) && next.leader_log(b)[k - 1].term == b implies
        next.holds(log, b, k) || next.spoiled(b, k, t as int) by {
        lemma_new_acks(w, next, i, v, b, k);
        if !w.acked(v, b, k) {
            assert(next.nodes[i].id == w.nodes[i].id);
            assert(w.nodes[i].id == i + 1);
            assert(false);
        }
        lemma_holds_stable(w, next, i, log, b, k);
        if w.spoiled(b, k, t as int) {
            lemma_spoiled_stable(w, next, i, b, k, t as int);
        }
    }
}

/// A reign whose log did not change stays what it was.
pub proof fn lemma_reign_stable(w: World, next: World, i: int, t: u64)
    requires
        w.inv(),
        w.moves(next, i),
        w.led(t),
        next.reigns[t] == w.reigns[t],
    ensures
        next.reign_ok(t),
{
    assert(w.reign_ok(t));
    let r = w.reigns[t];
    lemma_log_stable(w, next, i, r.log, t as int);
    assert(w.nodes[r.leader - 1].id == r.leader);
    lemma_electors_stable(w, next, i, t);
}

/// Those who elected a leader stand by their votes.
pub proof fn lemma_electors_stable(w: World, next: World, i: int, t: u64)
    requires
        w.inv(),
        w.moves(next, i),
        w.led(t),
    ensures
        next.electors_ok(t),
{
    assert(w.reign_ok(t));
    let r = w.reigns[t];
    assert(next.led(t));
    assert forall|a: int| 0 <= a < r.voters.len() && #[trigger] r.voters[a] implies {
        &&& next.voted((a + 1) as u64, t, r.leader)
        &&& next.vote_safe((a + 1) as u64, t, r.start)
    } by {
        lemma_voted_stable(w, next, i, (a + 1) as u64, t, r.leader);
        lemma_vote_safe_stable(w, next, i, (a + 1) as u64, t, r.leader, r.start);
    }
}

/// The votes stay single.
pub proof fn lemma_votes_stable(w: World, next: World, i: int)
    requires
        w.inv(),
        w.moves(next, i),
    ensures
        next.votes_ok(),
{
    assert(w.nodes[i].id == i + 1);
    assert forall|v: u64, t: u64, c: u64| #[trigger] next.voted(v, t, c) implies next.vote_known(
        v,
        t,
        c,
    ) by {
        lemma_new_votes(w, next, i, v, t, c);
        if w.voted(v, t, c) {
            assert(w.vote_known(v, t, c));
        }
    }
    assert forall|v: u64, t: u64, a: u64, b: u64|
        #![trigger next.voted(v, t, a), next.voted(v, t, b)]
        next.voted(v, t, a) && next.voted(v, t, b) implies a == b by {
        lemma_new_votes(w, next, i, v, t, a);
        lemma_new_votes(w, next, i, v, t, b);
        if w.voted(v, t, a) {
            assert(w.vote_known(v, t, a));
        }
        if w.voted(v, t, b) {
            assert(w.vote_known(v, t, b));
        }
    }
}

impl World {
    /// What the node at `i` itself must see to when it moves, for all to stay
    /// well.
    pub open spec fn moves_well(self, next: World, i: int) -> bool {
        let s = next.nodes[i];
        &&& self.moves(next, i)
        // It is well itself,
        &&& next.node_ok(s)
        // as is what it sends,
        &&& forall|o: Outgoing| #[trigger]
            next.net.contains(o) && !self.net.contains(o) ==> next.out_ok(o)
        // and its reign, where it rules.
        &&& next.led(s.term) && !(self.led(s.term) && next.reigns[s.term]
            == self.reigns[s.term]) ==> next.reign_ok(s.term)
        // It can be relied on where it votes,
        &&& forall|c: u64| #[trigger]
            next.voted(s.id, s.term, c) && !self.voted(s.id, s.term, c) && !next.led(s.term) ==> {
                &&& next.campaigned(s.term, c)
                &&& next.vote_safe(s.id, s.term, next.campaigns[(s.term, c)])
            }
        // keeps what it acknowledges,
        &&& forall|t: u64, k: int| #[trigger]
            next.acked(s.id, t, k) ==> s.term >= t && next.kept(s.log, s.term, t, k)
        // and campaigns with a log of earlier terms.
        &&& next.campaigned(s.term, s.id) && !self.campaigned(s.term, s.id) ==> next.log_ok(
            next.campaigns[(s.term, s.id)],
            s.term - 1,
        )
    }
}

/// Where the node that moves sees to its own, all stays well.
pub proof fn lemma_inv_kept(w: World, next: World, i: int)
    requires
        w.inv(),
        w.moves_well(next, i),
    ensures
        next.inv(),
{
    let s = next.nodes[i];
    assert(w.nodes[i].id == i + 1);
    assert(next.shape_ok()) by {
        assert forall|j: int| 0 <= j < next.nodes.len() implies {
            let x = #[trigger] next.nodes[j];
            &&& x.id == j + 1
            &&& x.cluster_size == next.nodes.len()
            &&& x.wf()
        } by {
            let y = w.nodes[j];
            assert(y.id == j + 1 && y.cluster_size == w.nodes.len() && y.wf());
        }
    }
    assert(next.nodes_ok()) by {
        assert forall|j: int| 0 <= j < next.nodes.len() implies #[trigger] next.node_ok(
            next.nodes[j],
        ) by {
            if j != i {
                lemma_node_stable(w, next, i, j);
            }
        }
    }
    assert(next.net_ok()) by {
        assert forall|o: Outgoing| #[trigger] next.net.contains(o) implies next.out_ok(o) by {
            if w.net.contains(o) {
                lemma_out_stable(w, next, i, o);
            }
        }
    }
    assert(next.reigns_ok()) by {
        assert forall|t: u64| next.led(t) implies #[trigger] next.reign_ok(t) by {
            if w.led(t) && next.reigns[t] == w.reigns[t] {
                lemma_reign_stable(w, next, i, t);
            }
        }
    }
    lemma_votes_stable(w, next, i);
    assert(next.pending_votes_ok()) by {
        assert forall|v: u64, t: u64, c: u64| #[trigger]
            next.voted(v, t, c) && !next.led(t) implies {
            &&& next.campaigned(t, c)
            &&& next.vote_safe(v, t, next.campaigns[(t, c)])
        } by {
            if w.voted(v, t, c) {
                assert(!w.led(t));
                lemma_vote_safe_stable(w, next, i, v, t, c, w.campaigns[(t, c)]);
                assert(w.campaigned(t, c));
            } else {
                lemma_new_votes(w, next, i, v, t, c);
            }
        }
    }
    assert(next.memory_ok()) by {
        assert forall|v: u64, t: u64, k: int| #[trigger] next.acked(v, t, k) implies {
            &&& 1 <= v <= next.nodes.len()
            &&& next.nodes[v - 1].term >= t
            &&& next.kept(next.nodes[v - 1].log, next.nodes[v - 1].term, t, k)
        } by {
            if v != s.id {
                lemma_new_acks(w, next, i, v, t, k);
                let x = w.nodes[v - 1];
                assert(next.nodes[v - 1] == x);
                lemma_holds_stable(w, next, i, x.log, t, k);
                if w.spoiled(t, k, x.term + 1) {
                    lemma_spoiled_stable(w, next, i, t, k, x.term + 1);
                }
            }
        }
    }
    assert(next.campaigns_ok()) by {
        assert forall|t: u64, c: u64| #[trigger] next.campaigned(t, c) implies next.log_ok(
            next.campaigns[(t, c)],
            t - 1,
        ) by {
            if w.campaigned(t, c) {
                lemma_log_stable(w, next, i, w.campaigns[(t, c)], t - 1);
            }
        }
    }
}

} // verus!
