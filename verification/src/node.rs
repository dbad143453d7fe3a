use vstd::prelude::*;

use crate::communication::{
    all_sent, carried, carries, lemma_carries_add, lemma_carries_nothing, lemma_carries_one,
    Channel, Outgoing,
};
use crate::config::InitialConfig;
use crate::error::{Error, Result};
use crate::log::RaftLog;
use crate::model::{Effect, NodeModel};
use crate::node_id::{lemma_node_id_of, NodeId, ValidNodeId, INVALID_ID};
use crate::proto::{
    entries_view, Append, AppendResponse, Entry, EntryView, Heartbeat, Message, MessageView,
    ProtoMessage, RequestVote, RequestVoteResponse,
};
use crate::quorum::{count_set, ElectionState, Vote};
use crate::rng::RngProvider;
use crate::role::{FollowerState, Role};
use crate::storage::{lemma_put_all_bounds, put_all, Storage};

verus! {

/// A member of a raft cluster.
pub struct Node<Store: Storage, Chan: Channel, Rng: RngProvider> {
    pub id: ValidNodeId,
    /// Current term.
    pub term: u64,
    /// Which peer this node voted for.
    pub voted_for: NodeId,
    /// Current term leader.
    pub leader_id: NodeId,
    /// Node's current role state
    pub role: Role,
    /// Cluster's initial configuration
    pub config: InitialConfig,
    /// Raft persisted log store.
    pub storage: RaftLog<Store>,
    /// Channel for sending messages
    pub channel: Chan,
    /// Where election timeouts are drawn from
    pub rng: Rng,
    /// If a follower does not receive any message in [election_timeout] ticks, it
    /// becomes a candidate and starts a new election. This value is a random value
    /// set at the start of an election inside the range ([max_election_timeout],
    /// [min_election_timeout])
    pub election_timeout: u64,
}

impl<Store: Storage, Chan: Channel, Rng: RngProvider> View for Node<Store, Chan, Rng> {
    type V = NodeModel;

    open spec fn view(&self) -> NodeModel {
        NodeModel {
            id: self.id@,
            cluster_size: self.config.cluster_size,
            min_timeout: self.config.min_ticks_before_election@,
            max_timeout: self.config.max_ticks_before_election@,
            heartbeat_interval: self.config.ticks_between_heartbeats@,
            term: self.term,
            voted_for: self.voted_for@,
            leader_id: self.leader_id@,
            role: self.role@,
            log: self.storage.store.log(),
            committed: self.storage.committed,
            persisted: self.storage.persisted,
            applied: self.storage.applied,
            election_timeout: self.election_timeout,
        }
    }
}

impl<Store: Storage, Chan: Channel, Rng: RngProvider> Node<Store, Chan, Rng> {
    /// The node can run, and its channel reaches the whole cluster.
    pub open spec fn wf(&self) -> bool {
        &&& self@.wf()
        &&& forall|id: u64| 1 <= id <= self.config.cluster_size ==> #[trigger] self.channel.reaches(id)
    }

    /// The message can be handled: see `NodeModel::can_step`. Where it is
    /// answered, the channel reaches the node it comes from.
    pub open spec fn accepts(&self, m: MessageView) -> bool {
        &&& self@.can_step(m)
        &&& self@.answers_sender(m) ==> self.channel.reaches(m.from())
    }

    /// This is what came of the node `before` by `effect`, whatever came in
    /// through its channel: it is in the state that `effect` tells, and has
    /// handed the messages of `effect` to its channel. An election timeout
    /// that was drawn is one of those configured.
    pub open spec fn moved(&self, before: &Self, effect: Effect) -> bool {
        &&& self@ == effect.node
        &&& self.id == before.id
        &&& self.config == before.config
        &&& carries(self.channel, before.channel, all_sent(effect.sent))
        &&& self.election_timeout == before.election_timeout || self@.min_timeout
            <= self.election_timeout < self@.max_timeout
        &&& self.drew_when_due(before)
    }

    /// Where this node started to campaign or to lead since `before`, its
    /// generator was asked once for a timeout of those configured, which is
    /// the election timeout since. Else both were left alone.
    pub open spec fn drew_when_due(&self, before: &Self) -> bool {
        let drew = before.rng.drew(
            &self.rng,
            before.config.min_ticks_before_election@,
            before.config.max_ticks_before_election@,
            self.election_timeout,
        );
        let campaigns = self.role is Candidate && self.term != before.term;
        let wins = self.role is Leader && before.role !is Leader;
        if campaigns || wins {
            drew
        } else {
            self.rng == before.rng && self.election_timeout == before.election_timeout
        }
    }

    /// This is what came of the node `before` by `effect`, and its channel was
    /// not asked for messages meanwhile.
    pub open spec fn became(&self, before: &Self, effect: Effect) -> bool {
        &&& self.moved(before, effect)
        &&& self.channel.answers() == before.channel.answers()
    }

    /// A node that starts with the log in `storage`.
    pub fn new(id: ValidNodeId, storage: Store, channel: Chan, rng: Rng, config: InitialConfig) -> (r:
        Self)
        requires
            config.min_ticks_before_election@ < config.max_ticks_before_election@,
        ensures
            r@ == NodeModel::initial(
                id@,
                config.cluster_size,
                config.min_ticks_before_election@,
                config.max_ticks_before_election@,
                config.ticks_between_heartbeats@,
                storage.log(),
                r.election_timeout,
            ),
            config.min_ticks_before_election@ <= r.election_timeout
                < config.max_ticks_before_election@,
            r.id == id,
            r.config == config,
            r.channel == channel,
            r.storage.store == storage,
            rng.drew(
                &r.rng,
                config.min_ticks_before_election@,
                config.max_ticks_before_election@,
                r.election_timeout,
            ),
    {
        proof {
            lemma_node_id_of(INVALID_ID);
        }
        let mut node = Self {
            id,
            voted_for: NodeId::from(INVALID_ID),
            leader_id: NodeId::from(INVALID_ID),
            role: Role::Follower(FollowerState::default()),
            term: 0,
            election_timeout: 0,
            config,
            storage: RaftLog::from_store(storage),
            channel,
            rng,
        };
        node.generate_random_election_timeout();
        node
    }

    /// Draws a new election timeout.
    pub fn generate_random_election_timeout(&mut self)
        requires
            old(self)@.min_timeout < old(self)@.max_timeout,
        ensures
            final(self)@ == (NodeModel {
                election_timeout: final(self).election_timeout,
                ..old(self)@
            }),
            old(self)@.min_timeout <= final(self).election_timeout < old(self)@.max_timeout,
            final(self).id == old(self).id,
            final(self).config == old(self).config,
            final(self).channel == old(self).channel,
            final(self).storage == old(self).storage,
            final(self).role == old(self).role,
            old(self).rng.drew(
                &final(self).rng,
                old(self).config.min_ticks_before_election@,
                old(self).config.max_ticks_before_election@,
                final(self).election_timeout,
            ),
    {
        let low: u64 = self.config.min_ticks_before_election.get();
        let high: u64 = self.config.max_ticks_before_election.get();
        self.election_timeout = self.rng.random_range(low, high);
    }

    /// Start a term of this node's own: it votes for itself, knows no leader
    /// and draws a new election timeout.
    pub fn start_term(&mut self)
        requires
            old(self)@.min_timeout < old(self)@.max_timeout,
        ensures
            final(self)@ == old(self)@.with_own_term(final(self).election_timeout),
            old(self)@.min_timeout <= final(self).election_timeout < old(self)@.max_timeout,
            final(self).id == old(self).id,
            final(self).config == old(self).config,
            final(self).channel == old(self).channel,
            final(self).storage == old(self).storage,
            final(self).role == old(self).role,
            old(self).rng.drew(
                &final(self).rng,
                old(self).config.min_ticks_before_election@,
                old(self).config.max_ticks_before_election@,
                final(self).election_timeout,
            ),
    {
        proof {
            lemma_node_id_of(INVALID_ID);
        }
        self.voted_for = NodeId::from(self.id);
        self.leader_id = NodeId::from(INVALID_ID);
        self.generate_random_election_timeout();
    }

    /// Start a campaign to attempt to become a leader.
    pub fn start_campaign(&mut self)
        requires
            old(self).wf(),
            old(self)@.can_step(MessageView::StartCampaign),
        ensures
            final(self).wf(),
            final(self).became(
                old(self),
                old(self)@.start_campaign(final(self).election_timeout),
            ),
    {
        let ghost before = *self;
        self.term = self.term + 1;
        self.role = self.role.become_candidate(self.config.cluster_size, self.id.get());
        self.start_term();
        let request = self.broadcast_request_vote();
        let msg = Message::RequestVote(request);
        self.channel.broadcast(msg.into_proto());
        proof {
            let effect = before@.start_campaign(self.election_timeout);
            lemma_carries_one(self.channel, before.channel, effect.sent[0]);
            assert(effect.sent =~= seq![effect.sent[0]]);
        }
    }

    fn broadcast_request_vote(&self) -> (r: RequestVote)
        requires
            self@.wf(),
        ensures
            r == self@.vote_request(),
    {
        RequestVote {
            to: INVALID_ID,
            from: self.id.get(),
            candidate_term: self.term,
            last_index: self.storage.store.last_index(),
            last_term: self.storage.store.last_term(),
        }
    }

    /// What this node says in a heartbeat, or in the answer to one.
    fn heartbeat_for(&self, to: u64) -> (r: Heartbeat)
        ensures
            r == self@.heartbeat(to),
    {
        Heartbeat {
            to,
            from: self.id.get(),
            term: self.term,
            commit: self.storage.committed,
            last_index: self.storage.store.last_index(),
            last_term: self.storage.store.last_term(),
        }
    }

    /// Hands `msg` to the channel for the node it is addressed to.
    fn send(&mut self, msg: Message)
        requires
            msg !is StartCampaign,
            old(self).channel.reaches(msg@.to()),
        ensures
            *final(self) == (Node { channel: final(self).channel, ..*old(self) }),
            carried(
                final(self).channel,
                old(self).channel,
                all_sent(
                    seq![Outgoing::To(msg@)],
                ),
            ),
    {
        let ghost before = self.channel;
        let ghost m = msg@;
        self.channel.send(msg.into_proto());
        proof {
            lemma_carries_one(self.channel, before, Outgoing::To(m));
        }
    }

    fn send_heartbeat_response_to(&mut self, to: u64)
        requires
            old(self).channel.reaches(to),
        ensures
            *final(self) == (Node { channel: final(self).channel, ..*old(self) }),
            carried(
                final(self).channel,
                old(self).channel,
                all_sent(
                    seq![Outgoing::To(MessageView::HeartbeatResponse(old(self)@.heartbeat(to)))],
                ),
            ),
    {
        let response = self.heartbeat_for(to);
        self.send(Message::HeartbeatResponse(response));
    }

    fn send_vote_response(&mut self, vote_for: u64, to: u64)
        requires
            old(self).channel.reaches(to),
        ensures
            *final(self) == (Node { channel: final(self).channel, ..*old(self) }),
            carried(
                final(self).channel,
                old(self).channel,
                all_sent(
                    seq![
                        Outgoing::To(
                            MessageView::RequestVoteResponse(old(self)@.vote_response(vote_for, to)),
                        ),
                    ],
                ),
            ),
    {
        let response = RequestVoteResponse {
            to,
            from: self.id.get(),
            voted_for: vote_for,
            term: self.term,
        };
        self.send(Message::RequestVoteResponse(response));
    }

    /// Send AppendEntries response to a specific node.
    fn send_append_response_to(&mut self, success: bool, last_index: u64, to: u64)
        requires
            old(self).channel.reaches(to),
        ensures
            *final(self) == (Node { channel: final(self).channel, ..*old(self) }),
            carried(
                final(self).channel,
                old(self).channel,
                all_sent(
                    seq![
                        Outgoing::To(
                            MessageView::AppendResponse(
                                old(self)@.append_response(success, last_index, to),
                            ),
                        ),
                    ],
                ),
            ),
    {
        let response = AppendResponse {
            to,
            from: self.id.get(),
            term: self.term,
            success,
            last_index,
        };
        self.send(Message::AppendResponse(response));
    }

    /// Send AppendEntries to a specific follower.
    fn send_append_entries_to(&mut self, to: ValidNodeId)
        requires
            old(self).wf(),
            old(self).role is Leader,
            to@ <= old(self).config.cluster_size,
        ensures
            *final(self) == (Node { channel: final(self).channel, ..*old(self) }),
            carried(
                final(self).channel,
                old(self).channel,
                all_sent(
                    seq![Outgoing::To(MessageView::Append(old(self)@.append_for(to@)))],
                ),
            ),
    {
        let to_number: u64 = to.get();
        let next_index: u64 = match &self.role {
            Role::Leader(state) => state.follower_progress.get(to).next_index,
            _ => 0,
        };
        let prev_log_index: u64 = if next_index > 1 {
            next_index - 1
        } else {
            0
        };
        let prev_log_term: u64 = match self.storage.store.term(prev_log_index) {
            Ok(term) => term,
            Err(_) => 0,
        };
        let last_index: u64 = self.storage.store.last_index();
        // Get entries to send (from next_index to last_index)
        let entries: Vec<Entry> = match self.storage.store.entries(next_index, last_index + 1) {
            Ok(entries) => entries,
            Err(_) => Vec::new(),
        };
        let msg = Message::Append(
            Append {
                to: to_number,
                from: self.id.get(),
                leader_term: self.term,
                leader_commit: self.storage.committed,
                last_index: prev_log_index,
                last_term: prev_log_term,
                entries,
            },
        );
        assert(msg@->Append_0.entries =~= self@.append_for(to@).entries);
        self.send(msg);
    }

    /// Replicate log entries to all followers. Only a leader does.
    fn replicate_to_followers(&mut self)
        requires
            old(self).wf(),
        ensures
            *final(self) == (Node { channel: final(self).channel, ..*old(self) }),
            carried(
                final(self).channel,
                old(self).channel,
                all_sent(
                    if old(self).role is Leader {
                        old(self)@.appends(old(self).config.cluster_size as nat)
                    } else {
                        Seq::empty()
                    },
                ),
            ),
    {
        if !matches!(self.role, Role::Leader(_)) {
            proof {
                lemma_carries_nothing(self.channel);
            }
            return;
        }
        let ghost before = *self;
        let size: u64 = self.config.cluster_size;
        let own: u64 = self.id.get();
        let mut follower_id: u64 = 0;
        proof {
            lemma_carries_nothing(before.channel);
        }
        // Send AppendEntries to each follower
        while follower_id < size
            invariant
                follower_id <= size,
                size == before.config.cluster_size,
                own == before.id@,
                before.wf(),
                before.role is Leader,
                *self == (Node { channel: self.channel, ..before }),
                carried(
                    self.channel,
                    before.channel,
                    all_sent(before@.appends(follower_id as nat)),
                ),
            decreases size - follower_id,
        {
            follower_id = follower_id + 1;
            if follower_id != own {
                let to = ValidNodeId::new(follower_id).unwrap();
                assert(self@ == before@);
                let ghost mid = self.channel;
                self.send_append_entries_to(to);
                proof {
                    let sent = before@.appends((follower_id - 1) as nat);
                    let msg = Outgoing::To(MessageView::Append(before@.append_for(follower_id)));
                    lemma_carries_add(before.channel, mid, self.channel, sent, seq![msg]);
                    assert(sent + seq![msg] =~= before@.appends(follower_id as nat));
                    assert(self@ == before@);
                }
            }
        }
    }

    /// Appends an entry of the current term to the log of this node.
    fn record(&mut self, data: Vec<u8>)
        requires
            old(self).wf(),
            old(self)@.log.len() + 1 < u64::MAX,
        ensures
            final(self)@ == old(self)@.with_entry(data@),
            final(self).wf(),
            final(self).id == old(self).id,
            final(self).config == old(self).config,
            final(self).channel == old(self).channel,
            final(self).role == old(self).role,
            final(self).rng == old(self).rng,
    {
        let ghost before = self.storage.store.log();
        let index: u64 = self.storage.store.last_index() + 1;
        let ghost d = data@;
        let entry = Entry { term: self.term, index, data };
        let mut entries: Vec<Entry> = Vec::new();
        entries.push(entry);
        let ghost e = entry@;
        assert(entries_view(entries@) =~= seq![e]);
        let _ = self.storage.store.append(entries);
        proof {
            reveal_with_fuel(put_all, 2);
            assert(seq![e].drop_first() =~= Seq::<EntryView>::empty());
            assert(before.take(before.len() as int) =~= before);
            assert(self.storage.store.log() =~= before.push(e));
        }
    }

    /// The election is won: lead, record an empty entry of the new term, and
    /// send the log to everyone.
    fn become_leader(&mut self)
        requires
            old(self).wf(),
            old(self).role is Candidate,
            old(self)@.log.len() + 1 < u64::MAX,
        ensures
            final(self).wf(),
            final(self).became(old(self), old(self)@.become_leader(final(self).election_timeout)),
    {
        let ghost before = *self;
        let last_index: u64 = self.storage.store.last_index();
        self.role = self.role.become_leader(self.config.cluster_size, self.id, last_index);
        self.start_term();
        self.leader_id = NodeId::from(self.id);
        self.record(Vec::new());
        assert(self@ == before@.become_leader(self.election_timeout).node);
        // Immediately replicate to all followers
        self.replicate_to_followers();
    }

    /// Asks this node to record `data` in the log of the cluster. Only a
    /// leader does; it sends the new entry to its followers.
    pub fn propose_entry(&mut self, data: Vec<u8>) -> (r: bool)
        requires
            old(self).wf(),
            old(self)@.can_propose(),
        ensures
            final(self).wf(),
            final(self).became(old(self), old(self)@.propose(data@)),
            r <==> old(self).role is Leader,
    {
        if matches!(self.role, Role::Leader(_)) {
            self.record(data);
            self.replicate_to_followers();
            true
        } else {
            proof {
                lemma_carries_nothing(self.channel);
            }
            false
        }
    }

    /// Send the last entry of the log alone to a specific node.
    fn send_last_entry_to(&mut self, to: u64)
        requires
            old(self).wf(),
            old(self).channel.reaches(to),
        ensures
            *final(self) == (Node { channel: final(self).channel, ..*old(self) }),
            carried(
                final(self).channel,
                old(self).channel,
                all_sent(
                    seq![
                        Outgoing::To(
                            MessageView::Append(old(self)@.append_from(old(self)@.last_index(), to)),
                        ),
                    ],
                ),
            ),
    {
        let last_index: u64 = self.storage.store.last_index();
        let prev_log_index: u64 = if last_index > 1 {
            last_index - 1
        } else {
            0
        };
        let prev_log_term: u64 = match self.storage.store.term(prev_log_index) {
            Ok(term) => term,
            Err(_) => 0,
        };
        let entries: Vec<Entry> = match self.storage.store.entries(last_index, last_index + 1) {
            Ok(entries) => entries,
            Err(_) => Vec::new(),
        };
        let msg = Message::Append(
            Append {
                to,
                from: self.id.get(),
                leader_term: self.term,
                leader_commit: self.storage.committed,
                last_index: prev_log_index,
                last_term: prev_log_term,
                entries,
            },
        );
        assert(msg@->Append_0.entries =~= self@.append_from(self@.last_index(), to).entries);
        self.send(msg);
    }

    /// Records `data`, if this node leads, and sends everyone the new entry
    /// alone.
    pub fn submit_entry(&mut self, data: Vec<u8>) -> (r: bool)
        requires
            old(self).wf(),
            old(self)@.can_propose(),
        ensures
            final(self).wf(),
            final(self).became(old(self), old(self)@.submit(data@)),
            r <==> old(self).role is Leader,
    {
        if !matches!(self.role, Role::Leader(_)) {
            proof {
                lemma_carries_nothing(self.channel);
            }
            return false;
        }
        self.record(data);
        let ghost before = *self;
        let size: u64 = self.config.cluster_size;
        let own: u64 = self.id.get();
        let mut follower_id: u64 = 0;
        proof {
            lemma_carries_nothing(before.channel);
        }
        while follower_id < size
            invariant
                follower_id <= size,
                size == before.config.cluster_size,
                own == before.id@,
                before.wf(),
                *self == (Node { channel: self.channel, ..before }),
                carried(
                    self.channel,
                    before.channel,
                    all_sent(before@.last_entry_appends(follower_id as nat)),
                ),
            decreases size - follower_id,
        {
            follower_id = follower_id + 1;
            if follower_id != own {
                assert(self@ == before@);
                let ghost mid = self.channel;
                self.send_last_entry_to(follower_id);
                proof {
                    let sent = before@.last_entry_appends((follower_id - 1) as nat);
                    let msg = Outgoing::To(
                        MessageView::Append(
                            before@.append_from(before@.last_index(), follower_id),
                        ),
                    );
                    lemma_carries_add(before.channel, mid, self.channel, sent, seq![msg]);
                    assert(sent + seq![msg] =~= before@.last_entry_appends(follower_id as nat));
                }
            }
        }
        true
    }

    fn broadcast_heartbeats(&mut self)
        ensures
            *final(self) == (Node { channel: final(self).channel, ..*old(self) }),
            carried(
                final(self).channel,
                old(self).channel,
                all_sent(
                    seq![Outgoing::All(MessageView::Heartbeat(old(self)@.heartbeat(0)))],
                ),
            ),
    {
        let ghost before = self.channel;
        let heartbeat = self.heartbeat_for(INVALID_ID);
        let ghost out = Outgoing::All(MessageView::Heartbeat(heartbeat));
        self.channel.broadcast(Message::Heartbeat(heartbeat).into_proto());
        proof {
            lemma_carries_one(self.channel, before, out);
        }
    }

    /// Perform a tick.
    pub fn tick(&mut self)
        requires
            old(self).wf(),
            old(self)@.can_tick(),
        ensures
            final(self).wf(),
            final(self).became(old(self), old(self)@.tick(final(self).election_timeout)),
    {
        let ghost before = *self;
        proof {
            lemma_carries_nothing(before.channel);
        }
        match &mut self.role {
            Role::Follower(state) => {
                let waited = FollowerState {
                    promotable: state.promotable,
                    ticks_since_last_msg: state.ticks_since_last_msg + 1,
                };
                if waited.election_timeout_passed(self.election_timeout) {
                    self.start_campaign();
                } else {
                    *state = waited;
                }
            },
            Role::Candidate(state) => {
                let waited: u64 = state.ticks_since_election_start + 1;
                if waited >= self.election_timeout {
                    self.start_campaign();
                } else if state.votes.has_majority_for() {
                    self.become_leader();
                } else {
                    state.ticks_since_election_start = waited;
                }
            },
            Role::Leader(state) => {
                let waited: u64 = state.ticks_since_last_heartbeat + 1;
                if waited >= self.config.ticks_between_heartbeats.get() {
                    state.ticks_since_last_heartbeat = 0;
                    self.broadcast_heartbeats();
                } else {
                    state.ticks_since_last_heartbeat = waited;
                }
            },
        }
    }

    /// Moves to the newer term `term`, in which this node has not voted.
    fn enter_term(&mut self, term: u64)
        ensures
            final(self)@ == old(self)@.in_term(term),
            *final(self) == (Node {
                term: final(self).term,
                voted_for: final(self).voted_for,
                ..*old(self)
            }),
    {
        proof {
            lemma_node_id_of(INVALID_ID);
        }
        self.term = term;
        self.voted_for = NodeId::from(INVALID_ID);
    }

    /// Steps down, where this node is more than a follower.
    fn step_down(&mut self)
        ensures
            final(self)@ == old(self)@.not_above_follower(),
            *final(self) == (Node { role: final(self).role, ..*old(self) }),
    {
        if !matches!(self.role, Role::Follower(_)) {
            self.role = Role::become_follower();
        }
    }

    /// Notes that `leader` leads the current term and is alive.
    fn follow(&mut self, leader: u64)
        ensures
            final(self)@ == (NodeModel { leader_id: leader, ..old(self)@ }).heard_from_leader(),
            *final(self) == (Node {
                leader_id: final(self).leader_id,
                role: final(self).role,
                ..*old(self)
            }),
    {
        proof {
            lemma_node_id_of(leader);
        }
        self.leader_id = NodeId::from(leader);
        match &mut self.role {
            Role::Follower(state) => {
                state.ticks_since_last_msg = 0;
            },
            _ => {},
        }
    }

    /// Handle the heartbeat of a leader.
    pub fn step_heartbeat(&mut self, req: Heartbeat)
        requires
            old(self).wf(),
            old(self).accepts(MessageView::Heartbeat(req)),
        ensures
            final(self).wf(),
            final(self).became(old(self), old(self)@.on_heartbeat(req)),
    {
        let ghost before = *self;
        proof {
            lemma_carries_nothing(before.channel);
        }
        if self.term > req.term {
            self.send_heartbeat_response_to(req.from);
            return;
        }
        if req.term > self.term {
            self.enter_term(req.term);
        } else if matches!(self.role, Role::Leader(_)) {
            return;
        }
        self.step_down();
        self.follow(req.from);
        self.send_heartbeat_response_to(req.from);
    }

    /// Handle HeartbeatResponse as leader.
    pub fn step_heartbeat_response(&mut self, resp: Heartbeat)
        requires
            old(self).wf(),
        ensures
            final(self).wf(),
            final(self).became(old(self), old(self)@.on_heartbeat_response(resp)),
    {
        let ghost before = *self;
        proof {
            lemma_carries_nothing(before.channel);
        }
        // Validate term - step down if behind
        if resp.term > self.term {
            self.enter_term(resp.term);
            self.role = Role::become_follower();
            return;
        } else if resp.term < self.term {
            return;
        }
        let last_index: u64 = self.storage.store.last_index();
        let committed: u64 = self.storage.committed;
        let mut lacks: bool = false;
        let follower_id = match ValidNodeId::new(resp.from) {
            Some(follower_id) => follower_id,
            None => {
                return;
            },
        };
        match &mut self.role {
            Role::Leader(state) => {
                if state.follower_progress.contains_key(follower_id) {
                    let progress = state.follower_progress.get_mut(follower_id);
                    // The follower holds nothing beyond what it says
                    if resp.last_index < u64::MAX && resp.last_index + 1 < progress.next_index {
                        progress.next_index = resp.last_index + 1;
                    }
                    lacks = progress.match_index < last_index || resp.commit < committed;
                }
            },
            _ => {},
        }
        if lacks {
            self.send_append_entries_to(follower_id);
        }
    }

    /// Handle the request of a candidate for a vote.
    pub fn step_vote_request(&mut self, req: RequestVote)
        requires
            old(self).wf(),
            old(self).accepts(MessageView::RequestVote(req)),
        ensures
            final(self).wf(),
            final(self).became(old(self), old(self)@.on_vote_request(req)),
    {
        proof {
            lemma_node_id_of(INVALID_ID);
            lemma_node_id_of(req.from);
        }
        if req.candidate_term > self.term {
            self.enter_term(req.candidate_term);
            self.leader_id = NodeId::from(INVALID_ID);
            self.step_down();
        }
        let voted: u64 = self.voted_for.to_u64();
        let vote: u64 = if req.candidate_term < self.term {
            INVALID_ID
        } else if voted != INVALID_ID {
            voted
        } else if self.is_up_to_date(req.last_term, req.last_index) {
            self.voted_for = NodeId::from(req.from);
            req.from
        } else {
            INVALID_ID
        };
        self.send_vote_response(vote, req.from);
    }

    /// Whether a log that ends at `last_index` with term `last_term` is at
    /// least as up to date as the log of this node.
    fn is_up_to_date(&self, last_term: u64, last_index: u64) -> (r: bool)
        ensures
            r <==> crate::model::up_to_date(last_term, last_index, self@.log),
    {
        let own_term: u64 = self.storage.store.last_term();
        last_term > own_term || (last_term == own_term && last_index
            >= self.storage.store.last_index())
    }

    /// Handle the answer to a request for a vote.
    pub fn step_vote_response(&mut self, req: RequestVoteResponse)
        requires
            old(self).wf(),
            old(self).accepts(MessageView::RequestVoteResponse(req)),
        ensures
            final(self).wf(),
            final(self).became(
                old(self),
                old(self)@.on_vote_response(req, final(self).election_timeout),
            ),
    {
        let ghost before = *self;
        proof {
            lemma_carries_nothing(before.channel);
        }
        if req.term > self.term {
            self.enter_term(req.term);
            self.step_down();
            return;
        } else if req.term < self.term {
            return;
        }
        let own: u64 = self.id.get();
        let vote = if req.voted_for == own {
            Vote::For
        } else {
            Vote::Against
        };
        let outcome = match &mut self.role {
            Role::Candidate(state) => state.votes.set(req.from, vote),
            _ => {
                return;
            },
        };
        match outcome {
            ElectionState::Won => {
                self.become_leader();
            },
            ElectionState::Lost => {
                self.role = Role::become_follower();
            },
            ElectionState::Pending => {},
        }
    }

    /// Process incoming AppendEntries RPC as a follower.
    pub fn step_append(&mut self, req: Append) -> (r: Result<()>)
        requires
            old(self).wf(),
            old(self).accepts(MessageView::Append(req@)),
        ensures
            final(self).wf(),
            final(self).became(old(self), old(self)@.on_append(req@)),
            r == match old(self)@.on_append(req@).error {
                Some(e) => Err::<(), Error>(e),
                None => Ok(()),
            },
    {
        let ghost before = *self;
        let ghost m = req@;
        proof {
            lemma_carries_nothing(before.channel);
        }
        if req.leader_term > self.term {
            self.enter_term(req.leader_term);
            self.step_down();
        } else if req.leader_term < self.term {
            let last_index: u64 = self.storage.store.last_index();
            self.send_append_response_to(false, last_index, req.from);
            return Ok(());
        }
        self.follow(req.from);
        // Index 0 precedes every log, so there is nothing to check before the first entry
        let log_ok = req.last_index == 0 || match self.storage.store.term(req.last_index) {
            Ok(prev_term) => prev_term == req.last_term,
            Err(_) => false,
        };
        if !log_ok {
            let last_index: u64 = self.storage.store.last_index();
            self.send_append_response_to(false, last_index, req.from);
            return Ok(());
        }
        let ghost log = self.storage.store.log();
        let last_index: u64 = self.storage.store.last_index();
        proof {
            lemma_put_all_bounds(log, m.entries);
        }
        let matched: u64 = req.last_index + req.entries.len() as u64;
        match self.storage.store.append(req.entries) {
            Ok(()) => {},
            Err(e) => {
                return Err(e);
            },
        }
        let known: u64 = if req.leader_commit < matched {
            req.leader_commit
        } else {
            matched
        };
        if known > self.storage.committed {
            self.storage.committed = known;
        }
        self.send_append_response_to(true, matched, req.from);
        Ok(())
    }

    /// How many nodes are known to this leader to hold the entry `index`.
    fn count_holders(&self, index: u64) -> (r: u64)
        requires
            self@.wf(),
            self.role is Leader,
        ensures
            r == count_set(self@.holders(index as int)),
    {
        let ghost flags = self@.holders(index as int);
        match &self.role {
            Role::Leader(state) => {
                let size: u64 = self.config.cluster_size;
                let own: u64 = self.id.get();
                let mut count: u64 = 0;
                let mut id: u64 = 0;
                while id < size
                    invariant
                        id <= size,
                        count <= id,
                        size == state.follower_progress@.len(),
                        size == flags.len(),
                        own == self.id@,
                        self.role == Role::Leader(*state),
                        flags == self@.holders(index as int),
                        count == count_set(flags.take(id as int)),
                    decreases size - id,
                {
                    id = id + 1;
                    assert(flags.take(id as int).drop_last() =~= flags.take(id - 1));
                    let node = ValidNodeId::new(id).unwrap();
                    if id == own || state.follower_progress.get(node).match_index >= index {
                        count = count + 1;
                    }
                }
                assert(flags.take(id as int) =~= flags);
                count
            },
            _ => 0,
        }
    }

    /// Commits all that more than half of the nodes are known to hold, up to
    /// the last such entry of this leader's own term.
    fn advance_commit(&mut self)
        requires
            old(self)@.wf(),
            old(self).role is Leader,
        ensures
            final(self)@ == (NodeModel {
                committed: old(self)@.commit_point(old(self)@.log.len()),
                ..old(self)@
            }),
            final(self).id == old(self).id,
            final(self).config == old(self).config,
            final(self).channel == old(self).channel,
            final(self).rng == old(self).rng,
    {
        let mut index: u64 = self.storage.store.last_index();
        let majority: u64 = self.config.cluster_size / 2;
        let mut found: bool = false;
        let ghost before = *self;
        while index > self.storage.committed && !found
            invariant
                *self == before,
                before@.wf(),
                before.role is Leader,
                majority == before.config.cluster_size / 2,
                index <= before@.log.len(),
                found ==> index > before.storage.committed && before@.committable(index as int),
                before@.commit_point(index as nat) == before@.commit_point(before@.log.len()),
            decreases index + (if found { 0int } else { 1int }),
        {
            let is_own = match self.storage.store.term(index) {
                Ok(term) => term == self.term,
                Err(_) => false,
            };
            if is_own && self.count_holders(index) > majority {
                found = true;
            } else {
                index = index - 1;
            }
        }
        if found {
            self.storage.committed = index;
        }
    }

    /// Handle AppendEntries response as leader.
    pub fn step_append_response(&mut self, resp: AppendResponse)
        requires
            old(self).wf(),
            old(self).accepts(MessageView::AppendResponse(resp)),
        ensures
            final(self).wf(),
            final(self).became(old(self), old(self)@.on_append_response(resp)),
    {
        let ghost before = *self;
        proof {
            lemma_carries_nothing(before.channel);
        }
        // Validate term - step down if behind
        if resp.term > self.term {
            self.enter_term(resp.term);
            self.role = Role::become_follower();
            return;
        } else if resp.term < self.term {
            return;
        }
        let last_index: u64 = self.storage.store.last_index();
        let follower_id = match ValidNodeId::new(resp.from) {
            Some(follower_id) => follower_id,
            None => {
                return;
            },
        };
        match &mut self.role {
            Role::Leader(state) => {
                if !state.follower_progress.contains_key(follower_id) {
                    return;
                }
                let progress = state.follower_progress.get_mut(follower_id);
                if resp.success {
                    // The follower holds what it says, as far as this log goes
                    let claimed: u64 = if resp.last_index > progress.match_index {
                        resp.last_index
                    } else {
                        progress.match_index
                    };
                    let match_idx: u64 = if claimed < last_index {
                        claimed
                    } else {
                        last_index
                    };
                    progress.update_on_success(match_idx);
                } else {
                    // Decrement next_index to retry with earlier entries
                    progress.decrement_next_index();
                }
            },
            _ => {
                return;
            },
        }
        if resp.success {
            self.advance_commit();
        } else {
            self.send_append_entries_to(follower_id);
        }
    }

    /// Perform a state transition based on the given message.
    pub fn step(&mut self, msg: Message) -> (r: Result<()>)
        requires
            old(self).wf(),
            old(self).accepts(msg@),
        ensures
            final(self).wf(),
            final(self).became(old(self), old(self)@.step(msg@, final(self).election_timeout)),
            r == match old(self)@.step(msg@, final(self).election_timeout).error {
                Some(e) => Err::<(), Error>(e),
                None => Ok(()),
            },
    {
        match msg {
            Message::StartCampaign => self.start_campaign(),
            Message::Heartbeat(m) => self.step_heartbeat(m),
            Message::HeartbeatResponse(m) => self.step_heartbeat_response(m),
            Message::Append(m) => {
                return self.step_append(m);
            },
            Message::AppendResponse(m) => self.step_append_response(m),
            Message::RequestVote(m) => self.step_vote_request(m),
            Message::RequestVoteResponse(m) => self.step_vote_response(m),
        }
        Ok(())
    }

    /// Whether a tick can pass.
    pub fn is_ready_to_tick(&self) -> (r: bool)
        ensures
            r <==> self@.can_tick(),
    {
        let last_index: u64 = self.storage.store.last_index();
        matches!(self.role, Role::Leader(_)) || (self.term < u64::MAX && last_index < u64::MAX - 1)
    }

    /// Whether an entry can be proposed.
    pub fn is_ready_to_propose(&self) -> (r: bool)
        ensures
            r <==> self@.can_propose(),
    {
        !matches!(self.role, Role::Leader(_)) || self.storage.store.last_index() < u64::MAX - 1
    }

    /// Whether the message can be handled.
    pub fn is_ready_for(&self, msg: &Message) -> (r: bool)
        requires
            self.wf(),
        ensures
            r <==> self.accepts(msg@),
    {
        let last_index: u64 = self.storage.store.last_index();
        match msg {
            Message::StartCampaign => {
                !matches!(self.role, Role::Leader(_)) && self.term < u64::MAX
            },
            Message::Heartbeat(m) => {
                (m.term == self.term && matches!(self.role, Role::Leader(_)))
                    || self.channel.can_reach(m.from)
            },
            Message::HeartbeatResponse(_) => true,
            Message::Append(m) => {
                assert(entries_view(m.entries@).len() == m.entries@.len());
                (m.entries.len() as u64) < u64::MAX - last_index && self.channel.can_reach(m.from)
            },
            Message::AppendResponse(m) => {
                match &self.role {
                    Role::Leader(state) => {
                        match ValidNodeId::new(m.from) {
                            Some(from) => {
                                m.success || m.term != self.term
                                    || !state.follower_progress.contains_key(from)
                                    || state.follower_progress.get(from).consecutive_failures
                                    < u64::MAX
                            },
                            None => true,
                        }
                    },
                    _ => true,
                }
            },
            Message::RequestVote(m) => self.channel.can_reach(m.from),
            Message::RequestVoteResponse(m) => {
                m.term != self.term || !matches!(self.role, Role::Candidate(_)) || (1 <= m.from
                    && m.from <= self.config.cluster_size && last_index < u64::MAX - 1)
            },
        }
    }

    /// Handles a message that came in, if it can be handled, and says what
    /// came of it. One that cannot is dropped.
    pub fn receive(&mut self, msg: ProtoMessage) -> (r: Option<Result<()>>)
        requires
            old(self).wf(),
        ensures
            final(self).wf(),
            r is Some <==> old(self).accepts(msg@.to_message()),
            r is None ==> *final(self) == *old(self),
            r matches Some(result) ==> {
                let effect = old(self)@.step(msg@.to_message(), final(self).election_timeout);
                &&& final(self).became(old(self), effect)
                &&& result == match effect.error {
                    Some(e) => Err::<(), Error>(e),
                    None => Ok(()),
                }
            },
    {
        let ghost view = msg@.to_message();
        let message = Message::from(msg);
        assert(message@ == view);
        if self.is_ready_for(&message) {
            Some(self.step(message))
        } else {
            None
        }
    }
}

/// A node that starts to campaign or to lead has drawn once, from all the
/// timeouts that it was configured with, and waits for as long as was drawn.
/// Whatever else comes of it, it draws nothing and waits as long as before.
pub proof fn law_timeouts_are_drawn_when_due<Store: Storage, Chan: Channel, Rng: RngProvider>(
    before: Node<Store, Chan, Rng>,
    after: Node<Store, Chan, Rng>,
    effect: Effect,
)
    requires
        after.became(&before, effect),
    ensures
        ({
            let started = (after.role is Candidate && after.term != before.term) || (after.role
                is Leader && before.role !is Leader);
            &&& started ==> before.rng.drew(
                &after.rng,
                before.config.min_ticks_before_election@,
                before.config.max_ticks_before_election@,
                after.election_timeout,
            )
            &&& !started ==> after.rng == before.rng && after.election_timeout
                == before.election_timeout
        }),
{
}

/// What comes of a node is what is told of it: it is in the state that is told,
/// has handed to its channel what it is told to send, in that order and behind
/// all that went before, and is the same node with the same configuration.
pub proof fn law_nodes_do_what_is_told<Store: Storage, Chan: Channel, Rng: RngProvider>(
    before: Node<Store, Chan, Rng>,
    after: Node<Store, Chan, Rng>,
    effect: Effect,
)
    requires
        after.became(&before, effect),
    ensures
        after.id == before.id,
        after.config == before.config,
        after.term == effect.node.term,
        after.voted_for@ == effect.node.voted_for,
        after.leader_id@ == effect.node.leader_id,
        after.role@ == effect.node.role,
        after.storage.store.log() == effect.node.log,
        after.storage.committed == effect.node.committed,
        after.channel.history().len() == before.channel.history().len() + effect.sent.len(),
        forall|i: int|
            0 <= i < before.channel.history().len() ==> #[trigger] after.channel.history()[i]
                == before.channel.history()[i],
        forall|i: int|
            0 <= i < effect.sent.len() ==> after.channel.history()[before.channel.history().len()
                + i] == (#[trigger] effect.sent[i]).sent(),
        after.channel.answers() == before.channel.answers(),
{
    assert forall|i: int| 0 <= i < effect.sent.len() implies
        after.channel.history()[before.channel.history().len() + i] == (
    #[trigger] effect.sent[i]).sent() by {
        assert(all_sent(effect.sent)[i] == effect.sent[i].sent());
    }
}

/// A node hears every member of its cluster: whatever one of them sends it can
/// handle, as long as there are terms and indices left.
pub proof fn law_members_are_heard<Store: Storage, Chan: Channel, Rng: RngProvider>(
    node: Node<Store, Chan, Rng>,
    m: MessageView,
)
    requires
        node.wf(),
        node.term < u64::MAX,
        1 <= m.from() <= node.config.cluster_size,
        m matches MessageView::Append(a) ==> node@.log.len() + a.entries.len() < u64::MAX,
        node@.log.len() + 1 < u64::MAX,
        m matches MessageView::AppendResponse(a) && !a.success && node@.role is Leader
            ==> node@.role->progress[m.from() - 1].consecutive_failures < u64::MAX,
    ensures
        m !is StartCampaign ==> node.accepts(m),
{
}

/// What is heard can be answered: a message that calls for an answer is handled
/// only where its sender can be reached.
pub proof fn law_answers_can_be_sent<Store: Storage, Chan: Channel, Rng: RngProvider>(
    node: Node<Store, Chan, Rng>,
    m: MessageView,
)
    requires
        node.accepts(m),
    ensures
        m is Append || m is RequestVote ==> node.channel.reaches(m.from()),
        m matches MessageView::Heartbeat(h) && !(h.term == node.term && node@.role is Leader)
            ==> node.channel.reaches(m.from()),
{
}

} // verus!
