//! What holds of a cluster at every moment.
use vstd::prelude::*;

use crate::communication::Outgoing;
use crate::model::NodeModel;
use crate::proto::{AppendResponse, AppendView, EntryView, MessageView, RequestVote, RequestVoteResponse};
use crate::quorum::{count_set, Vote};
use crate::role::RoleView;
use crate::storage::{last_term_of, term_at, well_indexed};
use crate::world::World;

verus! {

/// `log` starts with the first `k` entries of `of`.
pub open spec fn shares(log: Seq<EntryView>, of: Seq<EntryView>, k: int) -> bool {
    &&& 0 <= k <= log.len()
    &&& k <= of.len()
    &&& log.take(k) == of.take(k)
}

/// The terms of a log never go down.
pub open spec fn sorted(log: Seq<EntryView>) -> bool {
    forall|a: int, b: int| 0 <= a <= b < log.len() ==> (#[trigger] log[a]).term <= (#[trigger] log[b]).term
}

impl World {
    /// The term had a leader.
    pub open spec fn led(self, t: u64) -> bool {
        self.reigns.dom().contains(t)
    }

    /// The log of the leader of term `t`.
    pub open spec fn leader_log(self, t: u64) -> Seq<EntryView> {
        self.reigns[t].log
    }

    /// The log of the leader of term `t` as it was elected.
    pub open spec fn start_log(self, t: u64) -> Seq<EntryView> {
        self.reigns[t].start
    }

    pub open spec fn has_ack(self, m: AppendResponse) -> bool {
        self.net.contains(Outgoing::To(MessageView::AppendResponse(m)))
    }

    pub open spec fn has_ballot(self, m: RequestVoteResponse) -> bool {
        self.net.contains(Outgoing::To(MessageView::RequestVoteResponse(m)))
    }

    pub open spec fn campaigned(self, t: u64, c: u64) -> bool {
        self.campaigns.dom().contains((t, c))
    }

    /// Node `v` said that it holds the first `k` entries of the leader of term
    /// `t`, or is that leader.
    pub open spec fn acked(self, v: u64, t: u64, k: int) -> bool {
        &&& self.led(t)
        &&& 1 <= k <= self.leader_log(t).len()
        &&& self.reigns[t].leader == v || exists|m: AppendResponse| #[trigger]
            self.has_ack(m) && m.success && m.from == v && m.term == t && m.last_index >= k
    }

    /// Node `v` said that it voted for `c` in term `t`, or campaigned in it as `c`.
    pub open spec fn voted(self, v: u64, t: u64, c: u64) -> bool {
        ||| v == c && self.campaigned(t, c)
        ||| exists|m: RequestVoteResponse| #[trigger]
            self.has_ballot(m) && m.from == v && m.term == t && m.voted_for == c && c != 0
    }

    /// `q` marks more than half of the nodes.
    pub open spec fn majority(self, q: Seq<bool>) -> bool {
        &&& q.len() == self.nodes.len()
        &&& count_set(q) > q.len() / 2
    }

    /// All nodes that `q` marks hold the first `k` entries of the leader of `t`.
    pub open spec fn all_acked(self, q: Seq<bool>, t: u64, k: int) -> bool {
        forall|i: int| 0 <= i < q.len() && #[trigger] q[i] ==> self.acked((i + 1) as u64, t, k)
    }

    /// The first `k` entries of the leader of term `t` are safe: the last of
    /// them is of its own term and more than half of the nodes hold them.
    pub open spec fn chosen(self, t: u64, k: int) -> bool {
        &&& self.led(t)
        &&& 1 <= k <= self.leader_log(t).len()
        &&& self.leader_log(t)[k - 1].term == t
        &&& exists|q: Seq<bool>| #[trigger] self.majority(q) && self.all_acked(q, t, k)
    }

    /// `log` starts with the first `k` entries of the leader of term `t`.
    pub open spec fn holds(self, log: Seq<EntryView>, t: u64, k: int) -> bool {
        shares(log, self.leader_log(t), k)
    }

    /// Some leader after term `t` and before term `upto` was elected without
    /// the first `k` entries of the leader of term `t`.
    pub open spec fn spoiled(self, t: u64, k: int, upto: int) -> bool {
        exists|b: u64|
            #![trigger self.led(b)]
            self.led(b) && t < b < upto && !self.holds(self.start_log(b), t, k)
    }

    /// A node in term `term` still has in `log` what it acknowledged.
    pub open spec fn kept(self, log: Seq<EntryView>, term: u64, t: u64, k: int) -> bool {
        self.holds(log, t, k) || self.spoiled(t, k, term + 1)
    }

    /// Whatever `v` had acknowledged before term `t` is in `log`.
    pub open spec fn vote_safe(self, v: u64, t: u64, log: Seq<EntryView>) -> bool {
        forall|b: u64, k: int|
            b < t && #[trigger] self.acked(v, b, k) && self.leader_log(b)[k - 1].term == b
                ==> self.holds(log, b, k) || self.spoiled(b, k, t as int)
    }

    /// Every entry came from the leader of its term, along with all before it.
    pub open spec fn backed(self, log: Seq<EntryView>) -> bool {
        forall|j: int|
            0 <= j < log.len() ==> {
                let t = (#[trigger] log[j]).term;
                &&& self.led(t)
                &&& self.holds(log, t, j + 1)
            }
    }

    /// A log whose entries are of terms from 1 to `last`.
    pub open spec fn log_ok(self, log: Seq<EntryView>, last: int) -> bool {
        &&& self.backed(log)
        &&& sorted(log)
        &&& well_indexed(log)
        &&& log.len() < u64::MAX
        &&& forall|j: int| 0 <= j < log.len() ==> 1 <= (#[trigger] log[j]).term <= last
    }

    pub open spec fn commit_source(self, log: Seq<EntryView>, term: u64, c: int, t: u64, k: int) -> bool {
        &&& self.chosen(t, k)
        &&& t <= term
        &&& c <= k
        &&& self.holds(log, t, c)
    }

    /// The first `c` entries of `log`, which a node in `term` holds, are safe.
    pub open spec fn commit_ok(self, log: Seq<EntryView>, term: u64, c: int) -> bool {
        c == 0 || exists|t: u64, k: int| #[trigger] self.commit_source(log, term, c, t, k)
    }

    /// What holds of a node.
    pub open spec fn node_ok(self, s: NodeModel) -> bool {
        &&& self.log_ok(s.log, s.term as int)
        &&& self.commit_ok(s.log, s.term, s.committed as int)
        &&& s.voted_for != 0 ==> self.voted(s.id, s.term, s.voted_for)
        &&& match s.role {
            RoleView::Follower { promotable, ticks } => true,
            RoleView::Candidate { ticks, votes } => self.candidate_ok(s, votes),
            RoleView::Leader { ticks, progress } => self.leader_ok(s),
        }
    }

    pub open spec fn candidate_ok(self, s: NodeModel, votes: Seq<Vote>) -> bool {
        &&& s.voted_for == s.id
        &&& s.term >= 1
        &&& self.campaigned(s.term, s.id)
        &&& self.led(s.term) || s.log == self.campaigns[(s.term, s.id)]
        &&& forall|i: int|
            0 <= i < votes.len() && #[trigger] votes[i] == Vote::For ==> self.voted(
                (i + 1) as u64,
                s.term,
                s.id,
            )
    }

    pub open spec fn leader_ok(self, s: NodeModel) -> bool {
        &&& s.voted_for == s.id
        &&& self.led(s.term)
        &&& self.reigns[s.term].leader == s.id
        &&& self.leader_log(s.term) == s.log
        &&& self.progress_ok(s)
    }

    pub open spec fn progress_ok(self, s: NodeModel) -> bool {
        forall|i: int|
            0 <= i < s.role->progress.len() ==> {
                let p = #[trigger] s.role->progress[i];
                &&& 1 <= p.next_index <= s.log.len() + 1
                &&& p.match_index == 0 || self.acked((i + 1) as u64, s.term, p.match_index as int)
            }
    }

    /// What holds of an `Append` that was sent.
    pub open spec fn append_ok(self, m: AppendView) -> bool {
        let log = self.leader_log(m.leader_term);
        &&& self.led(m.leader_term)
        &&& m.from == self.reigns[m.leader_term].leader
        &&& m.to != m.from
        &&& m.last_index + m.entries.len() <= log.len()
        &&& m.entries == log.subrange(m.last_index as int, m.last_index + m.entries.len())
        &&& term_at(log, m.last_index) == Some(m.last_term)
        &&& m.leader_commit <= log.len()
        &&& self.commit_ok(log, m.leader_term, m.leader_commit as int)
    }

    /// What holds of an answer to an `Append`.
    pub open spec fn ack_ok(self, m: AppendResponse) -> bool {
        &&& m.to != m.from
        &&& m.success ==> {
            &&& self.led(m.term)
            &&& 1 <= m.from <= self.nodes.len()
            &&& m.from != self.reigns[m.term].leader
            &&& m.last_index <= self.leader_log(m.term).len()
            &&& self.nodes[m.from - 1].term >= m.term
        }
    }

    /// What holds of a request for votes.
    pub open spec fn request_ok(self, m: RequestVote) -> bool {
        let log = self.campaigns[(m.candidate_term, m.from)];
        &&& self.campaigned(m.candidate_term, m.from)
        &&& m.last_index == log.len()
        &&& m.last_term == last_term_of(log)
    }

    /// What holds of a message that was sent.
    pub open spec fn out_ok(self, o: Outgoing) -> bool {
        match o {
            Outgoing::To(m) => match m {
                MessageView::Append(m) => self.append_ok(m),
                MessageView::AppendResponse(m) => self.ack_ok(m),
                MessageView::RequestVoteResponse(m) => 1 <= m.from <= self.nodes.len(),
                MessageView::HeartbeatResponse(m) => m.to != m.from,
                _ => false,
            },
            Outgoing::All(m) => match m {
                MessageView::RequestVote(m) => self.request_ok(m),
                MessageView::Heartbeat(m) => true,
                _ => false,
            },
        }
    }

    /// What holds of the leader of term `t`.
    pub open spec fn reign_ok(self, t: u64) -> bool {
        let r = self.reigns[t];
        &&& 1 <= r.leader <= self.nodes.len()
        &&& self.nodes[r.leader - 1].term >= t
        &&& self.nodes[r.leader - 1].term == t ==> self.nodes[r.leader - 1].role is Leader
        &&& self.log_ok(r.log, t as int)
        &&& r.start.len() < r.log.len()
        &&& shares(r.start, r.log, r.start.len() as int)
        &&& forall|j: int| 0 <= j < r.start.len() ==> (#[trigger] r.start[j]).term < t
        &&& forall|j: int| r.start.len() <= j < r.log.len() ==> (#[trigger] r.log[j]).term == t
        &&& self.electors_ok(t)
    }

    /// What holds of those who elected the leader of term `t`.
    pub open spec fn electors_ok(self, t: u64) -> bool {
        let r = self.reigns[t];
        &&& self.majority(r.voters)
        &&& forall|i: int|
            0 <= i < r.voters.len() && #[trigger] r.voters[i] ==> {
                &&& self.voted((i + 1) as u64, t, r.leader)
                &&& self.vote_safe((i + 1) as u64, t, r.start)
            }
    }

    /// The cluster has the shape it started with.
    pub open spec fn shape_ok(self) -> bool {
        &&& 1 <= self.nodes.len() <= u64::MAX
        &&& forall|i: int|
            0 <= i < self.nodes.len() ==> {
                let s = #[trigger] self.nodes[i];
                &&& s.id == i + 1
                &&& s.cluster_size == self.nodes.len()
                &&& s.wf()
            }
    }

    /// A node votes once in a term, and knows in its last term for whom.
    pub open spec fn votes_ok(self) -> bool {
        &&& forall|v: u64, t: u64, c: u64| #[trigger] self.voted(v, t, c) ==> self.vote_known(v, t, c)
        &&& forall|v: u64, t: u64, a: u64, b: u64|
            #![trigger self.voted(v, t, a), self.voted(v, t, b)]
            self.voted(v, t, a) && self.voted(v, t, b) ==> a == b
    }

    pub open spec fn vote_known(self, v: u64, t: u64, c: u64) -> bool {
        &&& 1 <= v <= self.nodes.len()
        &&& c != 0
        &&& self.nodes[v - 1].term > t || (self.nodes[v - 1].term == t && self.nodes[v - 1].voted_for
            == c)
    }

    /// As long as a term has no leader, every vote cast in it is one that the
    /// candidate may rely on.
    pub open spec fn pending_votes_ok(self) -> bool {
        forall|v: u64, t: u64, c: u64| #[trigger]
            self.voted(v, t, c) && !self.led(t) ==> {
                &&& self.campaigned(t, c)
                &&& self.vote_safe(v, t, self.campaigns[(t, c)])
            }
    }

    /// What a node acknowledged it keeps.
    pub open spec fn memory_ok(self) -> bool {
        forall|v: u64, t: u64, k: int| #[trigger]
            self.acked(v, t, k) ==> {
                &&& 1 <= v <= self.nodes.len()
                &&& self.nodes[v - 1].term >= t
                &&& self.kept(self.nodes[v - 1].log, self.nodes[v - 1].term, t, k)
            }
    }

    /// What holds of the log of a campaign.
    pub open spec fn campaigns_ok(self) -> bool {
        forall|t: u64, c: u64| #[trigger]
            self.campaigned(t, c) ==> self.log_ok(self.campaigns[(t, c)], t - 1)
    }

    pub open spec fn nodes_ok(self) -> bool {
        forall|i: int| 0 <= i < self.nodes.len() ==> #[trigger] self.node_ok(self.nodes[i])
    }

    pub open spec fn net_ok(self) -> bool {
        forall|o: Outgoing| #[trigger] self.net.contains(o) ==> self.out_ok(o)
    }

    pub open spec fn reigns_ok(self) -> bool {
        forall|t: u64| self.led(t) ==> #[trigger] self.reign_ok(t)
    }

    /// What holds of the cluster at every moment.
    pub open spec fn inv(self) -> bool {
        &&& self.shape_ok()
        &&& self.nodes_ok()
        &&& self.net_ok()
        &&& self.reigns_ok()
        &&& self.votes_ok()
        &&& self.pending_votes_ok()
        &&& self.memory_ok()
        &&& self.campaigns_ok()
    }
}

} // verus!
