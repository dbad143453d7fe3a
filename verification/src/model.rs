//! The Raft protocol as a state machine: what a node becomes, and what it
//! sends, on each tick, message and proposal.
use vstd::prelude::*;

use crate::communication::{all_proper, all_sent, proper, Outgoing};
use crate::error::Error;
use crate::progress::FollowerProgress;
use crate::proto::{
    AppendResponse, AppendView, EntryView, Heartbeat, MessageView, RequestVote,
    RequestVoteResponse,
};
use crate::quorum::{count_set, election_state, has_majority, ElectionState, Vote};
use crate::role::RoleView;
use crate::storage::{first_misfit, last_term_of, put_all, term_at, well_indexed};

verus! {

/// A node as a mathematical value. A `voted_for` or `leader_id` of 0 stands
/// for nobody.
#[verifier::ext_equal]
pub struct NodeModel {
    pub id: u64,
    pub cluster_size: u64,
    pub min_timeout: u64,
    pub max_timeout: u64,
    pub heartbeat_interval: u64,
    pub term: u64,
    pub voted_for: u64,
    pub leader_id: u64,
    pub role: RoleView,
    pub log: Seq<EntryView>,
    pub committed: u64,
    pub persisted: u64,
    pub applied: u64,
    pub election_timeout: u64,
}

/// What came of a node: its new state, the messages it wants sent, in order,
/// and the error that kept it from finishing.
#[verifier::ext_equal]
pub struct Effect {
    pub node: NodeModel,
    pub sent: Seq<Outgoing>,
    pub error: Option<Error>,
}

/// The node moved to `node` and sends nothing.
pub open spec fn quietly(node: NodeModel) -> Effect {
    Effect { node, sent: Seq::empty(), error: None }
}

/// The node moved to `node` and sends `message` to the node it is addressed to.
pub open spec fn sending(node: NodeModel, message: MessageView) -> Effect {
    Effect { node, sent: seq![Outgoing::To(message)], error: None }
}

/// A candidate whose last entry is `last_index` of term `last_term` has a log
/// at least as up to date as `log`.
pub open spec fn up_to_date(last_term: u64, last_index: u64, log: Seq<EntryView>) -> bool {
    ||| last_term > last_term_of(log)
    ||| last_term == last_term_of(log) && last_index >= log.len()
}

/// The smaller of two numbers.
pub open spec fn min(a: int, b: int) -> int {
    if a <= b {
        a
    } else {
        b
    }
}

/// The larger of two numbers.
pub open spec fn max(a: int, b: int) -> int {
    if a >= b {
        a
    } else {
        b
    }
}

impl NodeModel {
    /// The node can run.
    pub open spec fn wf(self) -> bool {
        &&& 1 <= self.id <= self.cluster_size <= usize::MAX
        &&& self.min_timeout < self.max_timeout
        &&& self.role.wf(self.cluster_size)
        &&& well_indexed(self.log)
        &&& self.log.len() < u64::MAX
    }

    /// A node that starts with `log`.
    pub open spec fn initial(
        id: u64,
        cluster_size: u64,
        min_timeout: u64,
        max_timeout: u64,
        heartbeat_interval: u64,
        log: Seq<EntryView>,
        election_timeout: u64,
    ) -> NodeModel {
        NodeModel {
            id,
            cluster_size,
            min_timeout,
            max_timeout,
            heartbeat_interval,
            term: 0,
            voted_for: 0,
            leader_id: 0,
            role: RoleView::follower(),
            log,
            committed: 0,
            persisted: 0,
            applied: 0,
            election_timeout,
        }
    }

    /// The index of the last entry of the log.
    pub open spec fn last_index(self) -> u64 {
        self.log.len() as u64
    }

    /// The node at the start of the newer term `term`, in which it has not voted.
    pub open spec fn in_term(self, term: u64) -> NodeModel {
        NodeModel { term, voted_for: 0, ..self }
    }

    /// The node as a follower.
    pub open spec fn as_follower(self) -> NodeModel {
        NodeModel { role: RoleView::follower(), ..self }
    }

    /// The node as a follower, as it was where it is one.
    pub open spec fn not_above_follower(self) -> NodeModel {
        if self.role is Follower {
            self
        } else {
            self.as_follower()
        }
    }

    /// The node after it heard from a live leader: if it follows, its wait for
    /// an election starts over.
    pub open spec fn heard_from_leader(self) -> NodeModel {
        match self.role {
            RoleView::Follower { promotable, ticks } => NodeModel {
                role: RoleView::Follower { promotable, ticks: 0 },
                ..self
            },
            _ => self,
        }
    }

    /// The node after it started a term of its own with the election timeout `timeout`.
    pub open spec fn with_own_term(self, timeout: u64) -> NodeModel {
        NodeModel { voted_for: self.id, leader_id: 0, election_timeout: timeout, ..self }
    }

    // ------------------------------------------------------------------
    // What a node says
    // ------------------------------------------------------------------

    /// The heartbeat fields of this node, addressed to `to`.
    pub open spec fn heartbeat(self, to: u64) -> Heartbeat {
        Heartbeat {
            to,
            from: self.id,
            term: self.term,
            commit: self.committed,
            last_index: self.last_index(),
            last_term: last_term_of(self.log),
        }
    }

    /// The request for votes of this node.
    pub open spec fn vote_request(self) -> RequestVote {
        RequestVote {
            to: 0,
            from: self.id,
            candidate_term: self.term,
            last_index: self.last_index(),
            last_term: last_term_of(self.log),
        }
    }

    /// The answer `vote` to the candidate `to`.
    pub open spec fn vote_response(self, vote: u64, to: u64) -> RequestVoteResponse {
        RequestVoteResponse { to, from: self.id, voted_for: vote, term: self.term }
    }

    /// The answer to an `Append` of `to`.
    pub open spec fn append_response(self, success: bool, last_index: u64, to: u64) -> AppendResponse {
        AppendResponse { to, from: self.id, term: self.term, success, last_index }
    }

    /// The `Append` for a follower whose next entry is `next_index`: all
    /// entries from there on, and the entry that precedes them.
    pub open spec fn append_from(self, next_index: u64, to: u64) -> AppendView {
        let prev: u64 = if next_index > 1 {
            (next_index - 1) as u64
        } else {
            0
        };
        AppendView {
            to,
            from: self.id,
            leader_term: self.term,
            leader_commit: self.committed,
            last_index: prev,
            last_term: match term_at(self.log, prev) {
                Some(term) => term,
                None => 0,
            },
            entries: if 1 <= next_index <= self.log.len() {
                self.log.subrange(next_index - 1, self.log.len() as int)
            } else {
                Seq::empty()
            },
        }
    }

    /// The `Append` that a leader sends to node `to`.
    pub open spec fn append_for(self, to: u64) -> AppendView {
        self.append_from(self.role->progress[to - 1].next_index, to)
    }

    /// The `Append`s that a leader sends to the nodes up to `upto`, itself excepted.
    pub open spec fn appends(self, upto: nat) -> Seq<Outgoing>
        decreases upto,
    {
        if upto == 0 {
            Seq::empty()
        } else if upto == self.id {
            self.appends((upto - 1) as nat)
        } else {
            self.appends((upto - 1) as nat).push(
                Outgoing::To(MessageView::Append(self.append_for(upto as u64))),
            )
        }
    }

    /// The `Append`s of the last entry alone to the nodes up to `upto`, itself excepted.
    pub open spec fn last_entry_appends(self, upto: nat) -> Seq<Outgoing>
        decreases upto,
    {
        if upto == 0 {
            Seq::empty()
        } else if upto == self.id {
            self.last_entry_appends((upto - 1) as nat)
        } else {
            self.last_entry_appends((upto - 1) as nat).push(
                Outgoing::To(
                    MessageView::Append(self.append_from(self.last_index(), upto as u64)),
                ),
            )
        }
    }

    // ------------------------------------------------------------------
    // What a node does
    // ------------------------------------------------------------------

    /// The node starts to campaign.
    pub open spec fn start_campaign(self, timeout: u64) -> Effect {
        let node = NodeModel {
            term: (self.term + 1) as u64,
            role: RoleView::candidate(self.cluster_size, self.id),
            ..self
        }.with_own_term(timeout);
        Effect {
            node,
            sent: seq![Outgoing::All(MessageView::RequestVote(node.vote_request()))],
            error: None,
        }
    }

    /// The node appends an entry of its term to its log.
    pub open spec fn with_entry(self, data: Seq<u8>) -> NodeModel {
        NodeModel {
            log: self.log.push(
                EntryView { term: self.term, index: (self.log.len() + 1) as u64, data },
            ),
            ..self
        }
    }

    /// The node won its election: it leads, records an empty entry in its term
    /// and sends its log to everyone.
    pub open spec fn become_leader(self, timeout: u64) -> Effect {
        let node = NodeModel {
            leader_id: self.id,
            ..NodeModel {
                role: RoleView::leader(self.cluster_size, self.last_index()),
                ..self
            }.with_own_term(timeout)
        }.with_entry(Seq::empty());
        Effect { node, sent: node.appends(node.cluster_size as nat), error: None }
    }

    /// A client asks for `data` to be recorded. Only a leader does.
    pub open spec fn propose(self, data: Seq<u8>) -> Effect {
        if self.role is Leader {
            let node = self.with_entry(data);
            Effect { node, sent: node.appends(node.cluster_size as nat), error: None }
        } else {
            quietly(self)
        }
    }

    /// A user submits `data` to be recorded. A leader does, and sends everyone
    /// the new entry alone.
    pub open spec fn submit(self, data: Seq<u8>) -> Effect {
        if self.role is Leader {
            let node = self.with_entry(data);
            Effect {
                node,
                sent: node.last_entry_appends(node.cluster_size as nat),
                error: None,
            }
        } else {
            quietly(self)
        }
    }

    /// One tick passes.
    pub open spec fn tick(self, timeout: u64) -> Effect {
        match self.role {
            RoleView::Follower { promotable, ticks } => if ticks + 1 >= self.election_timeout {
                self.start_campaign(timeout)
            } else {
                quietly(
                    NodeModel {
                        role: RoleView::Follower { promotable, ticks: (ticks + 1) as u64 },
                        ..self
                    },
                )
            },
            RoleView::Candidate { ticks, votes } => if ticks + 1 >= self.election_timeout {
                self.start_campaign(timeout)
            } else if has_majority(votes, Vote::For) {
                self.become_leader(timeout)
            } else {
                quietly(
                    NodeModel {
                        role: RoleView::Candidate { ticks: (ticks + 1) as u64, votes },
                        ..self
                    },
                )
            },
            RoleView::Leader { ticks, progress } => if ticks + 1 >= self.heartbeat_interval {
                Effect {
                    node: NodeModel { role: RoleView::Leader { ticks: 0, progress }, ..self },
                    sent: seq![Outgoing::All(MessageView::Heartbeat(self.heartbeat(0)))],
                    error: None,
                }
            } else {
                quietly(
                    NodeModel {
                        role: RoleView::Leader { ticks: (ticks + 1) as u64, progress },
                        ..self
                    },
                )
            },
        }
    }

    /// A leader says that it is alive.
    pub open spec fn on_heartbeat(self, m: Heartbeat) -> Effect {
        if m.term < self.term {
            sending(self, MessageView::HeartbeatResponse(self.heartbeat(m.from)))
        } else if m.term == self.term && self.role is Leader {
            quietly(self)
        } else {
            let current = if m.term > self.term {
                self.in_term(m.term)
            } else {
                self
            };
            let node = NodeModel { leader_id: m.from, ..current.not_above_follower() }.heard_from_leader();
            sending(node, MessageView::HeartbeatResponse(node.heartbeat(m.from)))
        }
    }

    /// The progress of a follower whose log ends at `last_index`.
    pub open spec fn capped_progress(p: FollowerProgress, last_index: u64) -> FollowerProgress {
        if last_index + 1 < p.next_index {
            FollowerProgress { next_index: (last_index + 1) as u64, ..p }
        } else {
            p
        }
    }

    /// A node answers a heartbeat. The leader sends it what it lacks.
    pub open spec fn on_heartbeat_response(self, m: Heartbeat) -> Effect {
        if m.term > self.term {
            quietly(self.in_term(m.term).as_follower())
        } else if m.term == self.term && self.role is Leader && 1 <= m.from
            <= self.role->progress.len() {
            let p = Self::capped_progress(self.role->progress[m.from - 1], m.last_index);
            let node = NodeModel {
                role: RoleView::Leader {
                    ticks: self.role->Leader_ticks,
                    progress: self.role->progress.update(m.from - 1, p),
                },
                ..self
            };
            if p.match_index < self.log.len() || m.commit < self.committed {
                sending(node, MessageView::Append(node.append_for(m.from)))
            } else {
                quietly(node)
            }
        } else {
            quietly(self)
        }
    }

    /// A candidate asks for a vote.
    pub open spec fn on_vote_request(self, m: RequestVote) -> Effect {
        let current = if m.candidate_term > self.term {
            NodeModel { leader_id: 0, ..self.in_term(m.candidate_term).not_above_follower() }
        } else {
            self
        };
        if m.candidate_term < current.term {
            sending(current, MessageView::RequestVoteResponse(current.vote_response(0, m.from)))
        } else if current.voted_for != 0 {
            sending(
                current,
                MessageView::RequestVoteResponse(current.vote_response(current.voted_for, m.from)),
            )
        } else if up_to_date(m.last_term, m.last_index, current.log) {
            let node = NodeModel { voted_for: m.from, ..current };
            sending(node, MessageView::RequestVoteResponse(node.vote_response(m.from, m.from)))
        } else {
            sending(current, MessageView::RequestVoteResponse(current.vote_response(0, m.from)))
        }
    }

    /// A node says for whom it voted.
    pub open spec fn on_vote_response(self, m: RequestVoteResponse, timeout: u64) -> Effect {
        if m.term > self.term {
            quietly(self.in_term(m.term).not_above_follower())
        } else if m.term == self.term && self.role is Candidate {
            let votes = self.role->votes.update(
                m.from - 1,
                if m.voted_for == self.id {
                    Vote::For
                } else {
                    Vote::Against
                },
            );
            let node = NodeModel {
                role: RoleView::Candidate { ticks: self.role->Candidate_ticks, votes },
                ..self
            };
            match election_state(votes) {
                ElectionState::Won => node.become_leader(timeout),
                ElectionState::Lost => quietly(node.as_follower()),
                ElectionState::Pending => quietly(node),
            }
        } else {
            quietly(self)
        }
    }

    /// The entry that an `Append` builds on is in the log.
    pub open spec fn has_entry(self, index: u64, term: u64) -> bool {
        index == 0 || term_at(self.log, index) == Some(term)
    }

    /// A leader sends entries.
    pub open spec fn on_append(self, m: AppendView) -> Effect {
        if m.leader_term < self.term {
            sending(
                self,
                MessageView::AppendResponse(
                    self.append_response(false, self.last_index(), m.from),
                ),
            )
        } else {
            let current = if m.leader_term > self.term {
                self.in_term(m.leader_term).not_above_follower()
            } else {
                self
            };
            let node = NodeModel { leader_id: m.from, ..current }.heard_from_leader();
            if !node.has_entry(m.last_index, m.last_term) {
                sending(
                    node,
                    MessageView::AppendResponse(
                        node.append_response(false, node.last_index(), m.from),
                    ),
                )
            } else {
                let merged = NodeModel { log: put_all(node.log, m.entries), ..node };
                match first_misfit(node.log, m.entries) {
                    Some(idx) => Effect {
                        node: merged,
                        sent: Seq::empty(),
                        error: Some(Error::InvalidIdx(idx)),
                    },
                    None => {
                        let matched = (m.last_index + m.entries.len()) as u64;
                        let done = NodeModel {
                            committed: max(
                                node.committed as int,
                                min(m.leader_commit as int, matched as int),
                            ) as u64,
                            ..merged
                        };
                        sending(
                            done,
                            MessageView::AppendResponse(
                                done.append_response(true, matched, m.from),
                            ),
                        )
                    },
                }
            }
        }
    }

    /// Which nodes are known to this leader to hold the entry `index`: itself,
    /// and those whose progress has got there.
    pub open spec fn holders(self, index: int) -> Seq<bool> {
        Seq::new(
            self.role->progress.len(),
            |i: int| i + 1 == self.id || self.role->progress[i].match_index >= index,
        )
    }

    /// The entry `index` can be committed: it is of the leader's own term and
    /// more than half of the nodes hold it.
    pub open spec fn committable(self, index: int) -> bool {
        &&& self.log[index - 1].term == self.term
        &&& count_set(self.holders(index)) > self.cluster_size / 2
    }

    /// The last entry up to `upto` that can be committed, or the last one that
    /// already is.
    pub open spec fn commit_point(self, upto: nat) -> u64
        decreases upto,
    {
        if upto <= self.committed {
            self.committed
        } else if self.committable(upto as int) {
            upto as u64
        } else {
            self.commit_point((upto - 1) as nat)
        }
    }

    /// What a leader learns from a successful answer that `from` holds the
    /// entries up to `index`.
    pub open spec fn with_match(self, from: u64, index: u64) -> NodeModel {
        let p = self.role->progress[from - 1];
        let matched = min(
            max(p.match_index as int, index as int),
            self.log.len() as int,
        ) as u64;
        NodeModel {
            role: RoleView::Leader {
                ticks: self.role->Leader_ticks,
                progress: self.role->progress.update(from - 1, FollowerProgress::matched(matched)),
            },
            ..self
        }
    }

    /// A node answers an `Append`.
    pub open spec fn on_append_response(self, m: AppendResponse) -> Effect {
        if m.term > self.term {
            quietly(self.in_term(m.term).as_follower())
        } else if m.term == self.term && self.role is Leader && 1 <= m.from
            <= self.role->progress.len() {
            if m.success {
                let node = self.with_match(m.from, m.last_index);
                quietly(NodeModel { committed: node.commit_point(node.log.len()), ..node })
            } else {
                let p = self.role->progress[m.from - 1].failed();
                let node = NodeModel {
                    role: RoleView::Leader {
                        ticks: self.role->Leader_ticks,
                        progress: self.role->progress.update(m.from - 1, p),
                    },
                    ..self
                };
                sending(node, MessageView::Append(node.append_for(m.from)))
            }
        } else {
            quietly(self)
        }
    }

    /// A message is handled. `timeout` is the election timeout that is drawn,
    /// where one is.
    pub open spec fn step(self, m: MessageView, timeout: u64) -> Effect {
        match m {
            MessageView::StartCampaign => self.start_campaign(timeout),
            MessageView::Heartbeat(m) => self.on_heartbeat(m),
            MessageView::HeartbeatResponse(m) => self.on_heartbeat_response(m),
            MessageView::Append(m) => self.on_append(m),
            MessageView::AppendResponse(m) => self.on_append_response(m),
            MessageView::RequestVote(m) => self.on_vote_request(m),
            MessageView::RequestVoteResponse(m) => self.on_vote_response(m, timeout),
        }
    }

    // ------------------------------------------------------------------
    // What a node can be asked to do
    // ------------------------------------------------------------------

    /// A tick can pass: where it may start a campaign or win one, there is a
    /// next term and room for one more entry.
    pub open spec fn can_tick(self) -> bool {
        self.role is Leader || (self.term < u64::MAX && self.log.len() + 1 < u64::MAX)
    }

    /// An entry can be proposed.
    pub open spec fn can_propose(self) -> bool {
        self.role is Leader ==> self.log.len() + 1 < u64::MAX
    }

    /// The message can be handled.
    pub open spec fn can_step(self, m: MessageView) -> bool {
        match m {
            // A leader never campaigns.
            MessageView::StartCampaign => self.role !is Leader && self.term < u64::MAX,
            MessageView::Append(m) => self.log.len() + m.entries.len() < u64::MAX,
            MessageView::AppendResponse(m) => (m.term == self.term && !m.success && self.role
                is Leader && 1 <= m.from <= self.role->progress.len())
                ==> self.role->progress[m.from - 1].consecutive_failures < u64::MAX,
            // Only a member of the cluster votes.
            MessageView::RequestVoteResponse(m) => (m.term == self.term && self.role is Candidate)
                ==> 1 <= m.from <= self.cluster_size && self.log.len() + 1 < u64::MAX,
            MessageView::Heartbeat(_) => true,
            MessageView::HeartbeatResponse(_) => true,
            MessageView::RequestVote(_) => true,
        }
    }

    /// Handling the message may send an answer to the node it comes from,
    /// which need not be a member of the cluster.
    pub open spec fn answers_sender(self, m: MessageView) -> bool {
        match m {
            MessageView::Heartbeat(m) => !(m.term == self.term && self.role is Leader),
            MessageView::Append(_) => true,
            MessageView::RequestVote(_) => true,
            _ => false,
        }
    }
}

proof fn lemma_appends_proper(s: NodeModel, upto: nat)
    requires
        upto <= u64::MAX,
    ensures
        all_proper(all_sent(s.appends(upto))),
        all_proper(all_sent(s.last_entry_appends(upto))),
    decreases upto,
{
    if upto > 0 {
        lemma_appends_proper(s, (upto - 1) as nat);
        let before = s.appends((upto - 1) as nat);
        let after = s.appends(upto);
        assert forall|i: int| 0 <= i < after.len() implies proper(#[trigger] all_sent(after)[i]) by {
            if i < before.len() {
                assert(proper(all_sent(before)[i]));
            }
        }
        let before = s.last_entry_appends((upto - 1) as nat);
        let after = s.last_entry_appends(upto);
        assert forall|i: int| 0 <= i < after.len() implies proper(#[trigger] all_sent(after)[i]) by {
            if i < before.len() {
                assert(proper(all_sent(before)[i]));
            }
        }
    }
}

/// Whatever a node does, what it sends to one node names it and what it sends
/// to all names nobody, if those that it answers have a name.
pub proof fn lemma_sends_proper(s: NodeModel, m: MessageView, data: Seq<u8>, timeout: u64)
    requires
        s.answers_sender(m) ==> m.from() != 0,
    ensures
        all_proper(all_sent(s.step(m, timeout).sent)),
        all_proper(all_sent(s.tick(timeout).sent)),
        all_proper(all_sent(s.submit(data).sent)),
{
    let leader = s.become_leader(timeout).node;
    lemma_appends_proper(leader, leader.cluster_size as nat);
    let grown = s.with_entry(data);
    lemma_appends_proper(grown, grown.cluster_size as nat);
    if let MessageView::RequestVoteResponse(r) = m {
        if r.term == s.term && s.role is Candidate {
            let votes = s.role->votes.update(
                r.from - 1,
                if r.voted_for == s.id {
                    Vote::For
                } else {
                    Vote::Against
                },
            );
            let node = NodeModel {
                role: RoleView::Candidate { ticks: s.role->Candidate_ticks, votes },
                ..s
            };
            let won = node.become_leader(timeout).node;
            lemma_appends_proper(won, won.cluster_size as nat);
        }
    }
}

} // verus!
