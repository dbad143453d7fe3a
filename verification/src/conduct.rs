//! What a node owes to its cluster on each occasion, said of what it gets and
//! what it gives.
use vstd::prelude::*;

use crate::communication::Outgoing;
use crate::error::Error;
use crate::model::NodeModel;
use crate::proto::{
    AppendResponse, AppendView, EntryView, Heartbeat, MessageView, RequestVote,
    RequestVoteResponse,
};
use crate::quorum::{
    law_count_is_the_number_of_places, law_more_than_half_decides, places_set, voters_of, Vote,
};
use crate::role::RoleView;
use crate::storage::{
    first_misfit, law_entries_are_put_in_order, law_gaps_are_refused, put, put_all, well_indexed,
};

verus! {

/// The term of the last entry, 0 where there is none.
pub open spec fn end_term(log: Seq<EntryView>) -> int {
    if log.len() == 0 {
        0
    } else {
        log[log.len() - 1].term as int
    }
}

/// What a node is set up with, and what it was told of its application, stays.
pub open spec fn same_setup(a: NodeModel, b: NodeModel) -> bool {
    &&& a.id == b.id
    &&& a.cluster_size == b.cluster_size
    &&& a.min_timeout == b.min_timeout
    &&& a.max_timeout == b.max_timeout
    &&& a.heartbeat_interval == b.heartbeat_interval
    &&& a.persisted == b.persisted
    &&& a.applied == b.applied
}

/// The log stays, and how far it is committed.
pub open spec fn same_log(a: NodeModel, b: NodeModel) -> bool {
    &&& a.log == b.log
    &&& a.committed == b.committed
}

/// A node that stays as it is.
pub open spec fn untouched(a: NodeModel, b: NodeModel) -> bool {
    &&& same_setup(a, b)
    &&& same_log(a, b)
    &&& a.term == b.term
    &&& a.voted_for == b.voted_for
    &&& a.leader_id == b.leader_id
    &&& a.role == b.role
    &&& a.election_timeout == b.election_timeout
}

/// A node that was left behind by `term` and follows in it: it has not voted.
pub open spec fn steps_down(before: NodeModel, after: NodeModel, term: u64) -> bool {
    &&& same_setup(before, after)
    &&& same_log(before, after)
    &&& after.term == term
    &&& after.voted_for == 0
    &&& after.role is Follower
    &&& after.election_timeout == before.election_timeout
}

/// `h` is what `s` says of itself to `to`.
pub open spec fn tells(h: Heartbeat, s: NodeModel, to: u64) -> bool {
    &&& h.to == to
    &&& h.from == s.id
    &&& h.term == s.term
    &&& h.commit == s.committed
    &&& h.last_index == s.log.len()
    &&& h.last_term == end_term(s.log)
}

/// `m` brings node `to` the entries of the leader `s` from `next` on, and says
/// which entry precedes them.
pub open spec fn brings_from(m: AppendView, s: NodeModel, next: int, to: u64) -> bool {
    &&& m.to == to
    &&& m.from == s.id
    &&& m.leader_term == s.term
    &&& m.leader_commit == s.committed
    &&& m.last_index == next - 1
    &&& m.last_term == end_term(s.log.take(next - 1))
    &&& m.entries.len() == s.log.len() - (next - 1)
    &&& forall|i: int| 0 <= i < m.entries.len() ==> #[trigger] m.entries[i] == s.log[next - 1 + i]
}

/// The entry from which on a leader has entries for node `to`.
pub open spec fn next_for(s: NodeModel, to: u64) -> int {
    s.role->progress[to - 1].next_index as int
}

/// `out` is an `Append` to node `to` alone.
pub open spec fn is_append_to(out: Outgoing, to: u64) -> bool {
    out matches Outgoing::To(MessageView::Append(m)) && m.to == to
}

/// Where node `to` stands among all nodes but `own`, in the order of the ids.
pub open spec fn place(to: u64, own: u64) -> int {
    if to < own {
        to - 1
    } else {
        to - 2
    }
}

/// What is sent is one `Append` to each node but the sender, in the order of
/// the ids.
pub open spec fn one_append_each(sent: Seq<Outgoing>, own: u64, size: u64) -> bool {
    &&& sent.len() == size - 1
    &&& forall|to: u64|
        1 <= to <= size && to != own ==> is_append_to(
            sent[place(to, own)],
            to,
        )
}

/// The `Append` to `to` among those that go to each node.
pub open spec fn append_to(sent: Seq<Outgoing>, own: u64, to: u64) -> AppendView {
    sent[place(to, own)].message()->Append_0
}

proof fn lemma_appends(s: NodeModel, upto: nat)
    requires
        s.wf(),
        upto <= s.cluster_size,
    ensures
        s.appends(upto).len() == if upto >= s.id {
            (upto - 1) as nat
        } else {
            upto
        },
        s.last_entry_appends(upto).len() == if upto >= s.id {
            (upto - 1) as nat
        } else {
            upto
        },
        forall|to: u64|
            1 <= to <= upto && to != s.id ==> {
                &&& #[trigger] is_append_to(s.appends(upto)[place(to, s.id)], to)
                &&& s.appends(upto)[place(to, s.id)] == Outgoing::To(MessageView::Append(s.append_for(to)))
            },
        forall|to: u64|
            1 <= to <= upto && to != s.id ==> {
                &&& #[trigger] is_append_to(s.last_entry_appends(upto)[place(to, s.id)], to)
                &&& s.last_entry_appends(upto)[place(to, s.id)] == Outgoing::To(
                    MessageView::Append(s.append_from(s.last_index(), to)),
                )
            },
    decreases upto,
{
    if upto > 0 {
        let fewer = (upto - 1) as nat;
        lemma_appends(s, fewer);
        assert forall|to: u64| 1 <= to <= upto && to != s.id implies {
            &&& #[trigger] is_append_to(s.appends(upto)[place(to, s.id)], to)
            &&& s.appends(upto)[place(to, s.id)] == Outgoing::To(MessageView::Append(s.append_for(to)))
        } by {
            if to < upto {
                assert(is_append_to(s.appends(fewer)[place(to, s.id)], to));
            }
        }
        assert forall|to: u64| 1 <= to <= upto && to != s.id implies {
            &&& #[trigger] is_append_to(s.last_entry_appends(upto)[place(to, s.id)], to)
            &&& s.last_entry_appends(upto)[place(to, s.id)] == Outgoing::To(
                MessageView::Append(s.append_from(s.last_index(), to)),
            )
        } by {
            if to < upto {
                assert(is_append_to(s.last_entry_appends(fewer)[place(to, s.id)], to));
            }
        }
    }
}

proof fn lemma_brings(s: NodeModel, next: u64, to: u64)
    requires
        s.wf(),
        1 <= next <= s.log.len() + 1,
    ensures
        brings_from(s.append_from(next, to), s, next as int, to),
{
    let m = s.append_from(next, to);
    if next > 1 {
        assert(s.log.take(next - 1)[next - 2] == s.log[next - 2]);
    }
}

/// A node starts in term 0 as a follower of nobody that has voted for nobody
/// and committed nothing, with the log it is given, and can run.
pub proof fn law_nodes_start_blank(
    id: u64,
    size: u64,
    low: u64,
    high: u64,
    beat: u64,
    log: Seq<EntryView>,
    timeout: u64,
)
    requires
        1 <= id <= size <= usize::MAX,
        low < high,
        forall|i: int| 0 <= i < log.len() ==> (#[trigger] log[i]).index == i + 1,
        log.len() < u64::MAX,
    ensures
        ({
            let s = NodeModel::initial(id, size, low, high, beat, log, timeout);
            &&& s.wf()
            &&& s.id == id
            &&& s.cluster_size == size
            &&& s.min_timeout == low
            &&& s.max_timeout == high
            &&& s.heartbeat_interval == beat
            &&& s.election_timeout == timeout
            &&& s.log == log
            &&& s.term == 0
            &&& s.voted_for == 0
            &&& s.leader_id == 0
            &&& s.committed == 0
            &&& s.persisted == 0
            &&& s.applied == 0
            &&& s.role == (RoleView::Follower { promotable: true, ticks: 0 })
        }),
{
}

/// Whatever a node is asked to do it can do, as long as there are terms and
/// indices left: tick, record, and handle every message of a member of the
/// cluster. Only a leader does not campaign.
pub proof fn law_nodes_are_ready(s: NodeModel, m: MessageView)
    requires
        s.wf(),
        s.term < u64::MAX,
        s.log.len() + 1 < u64::MAX,
    ensures
        s.can_tick(),
        s.can_propose(),
        s.can_step(MessageView::StartCampaign) <==> s.role !is Leader,
        m matches MessageView::Heartbeat(_) ==> s.can_step(m),
        m matches MessageView::HeartbeatResponse(_) ==> s.can_step(m) && !s.answers_sender(m),
        m matches MessageView::RequestVote(_) ==> s.can_step(m),
        m matches MessageView::Append(a) && s.log.len() + a.entries.len() < u64::MAX ==> s.can_step(
            m,
        ),
        m matches MessageView::AppendResponse(a) && (a.success || s.role !is Leader || !(1 <= a.from
            <= s.cluster_size) || s.role->progress[a.from - 1].consecutive_failures < u64::MAX)
            ==> s.can_step(m) && !s.answers_sender(m),
        m matches MessageView::RequestVoteResponse(v) && 1 <= v.from <= s.cluster_size
            ==> s.can_step(m) && !s.answers_sender(m),
{
}

/// To campaign is to go on to the next term, to vote for oneself and for
/// nobody else, to know no leader, and to ask everyone for a vote with word of
/// one's log. The log stays.
pub proof fn law_campaign(s: NodeModel, timeout: u64)
    requires
        s.wf(),
        s.term < u64::MAX,
    ensures
        ({
            let n = s.start_campaign(timeout).node;
            &&& same_setup(s, n)
            &&& same_log(s, n)
            &&& n.term == s.term + 1
            &&& n.voted_for == s.id
            &&& n.leader_id == 0
            &&& n.election_timeout == timeout
            &&& n.role matches RoleView::Candidate { ticks, votes } && ticks == 0 && votes.len()
                == s.cluster_size && forall|i: int|
                0 <= i < votes.len() ==> (#[trigger] votes[i] == if i + 1 == s.id {
                    Vote::For
                } else {
                    Vote::Pending
                })
            &&& s.start_campaign(timeout).error is None
            &&& s.start_campaign(timeout).sent.len() == 1
            &&& s.start_campaign(timeout).sent[0] matches Outgoing::All(
                MessageView::RequestVote(r),
            ) && r.to == 0 && r.from == s.id && r.candidate_term == s.term + 1 && r.last_index
                == s.log.len() && r.last_term == end_term(s.log)
        }),
{
}

/// What is proposed is what is recorded: a leader adds one entry to the end of
/// its log, of its own term and with the very data that was proposed, and
/// nothing else changes. Each other node is sent all entries that the leader
/// has for it, the new one last. Nobody but a leader records anything.
pub proof fn law_proposal_is_recorded_and_sent(s: NodeModel, data: Seq<u8>)
    requires
        s.wf(),
        s.log.len() + 1 < u64::MAX,
    ensures
        s.propose(data).error is None,
        s.role !is Leader ==> untouched(s, s.propose(data).node) && s.propose(data).sent.len() == 0,
        s.role is Leader ==> {
            let n = s.propose(data).node;
            let sent = s.propose(data).sent;
            &&& same_setup(s, n)
            &&& n.log.len() == s.log.len() + 1
            &&& forall|i: int| 0 <= i < s.log.len() ==> #[trigger] n.log[i] == s.log[i]
            &&& n.log[s.log.len() as int].data == data
            &&& n.log[s.log.len() as int].term == s.term
            &&& n.log[s.log.len() as int].index == s.log.len() + 1
            &&& n.committed == s.committed
            &&& n.term == s.term
            &&& n.voted_for == s.voted_for
            &&& n.leader_id == s.leader_id
            &&& n.role == s.role
            &&& n.election_timeout == s.election_timeout
            &&& one_append_each(sent, s.id, s.cluster_size)
            &&& forall|to: u64|
                1 <= to <= s.cluster_size && to != s.id && 1 <= #[trigger] next_for(s, to)
                    <= s.log.len() + 1 ==> {
                    &&& brings_from(append_to(sent, s.id, to), n, next_for(s, to), to)
                    &&& append_to(sent, s.id, to).entries.last().data == data
                }
        },
{
    if s.role is Leader {
        let n = s.propose(data).node;
        lemma_appends(n, n.cluster_size as nat);
        assert forall|to: u64|
            1 <= to <= s.cluster_size && to != s.id && 1 <= #[trigger] next_for(s, to)
                <= s.log.len() + 1 implies {
            &&& brings_from(
                append_to(s.propose(data).sent, s.id, to),
                n,
                next_for(s, to),
                to,
            )
            &&& append_to(s.propose(data).sent, s.id, to).entries.last().data == data
        } by {
            lemma_brings(n, next_for(s, to) as u64, to);
            assert(is_append_to(n.appends(n.cluster_size as nat)[place(to, s.id)], to));
        }
        assert forall|to: u64| 1 <= to <= s.cluster_size && to != s.id implies is_append_to(
            s.propose(data).sent[place(to, s.id)],
            to,
        ) by {
            assert(is_append_to(n.appends(n.cluster_size as nat)[place(to, s.id)], to));
        }
    }
}

/// What is submitted is what is recorded, as with a proposal, and each other
/// node is sent the new entry alone.
pub proof fn law_submission_is_recorded_and_sent(s: NodeModel, data: Seq<u8>)
    requires
        s.wf(),
        s.log.len() + 1 < u64::MAX,
    ensures
        s.submit(data).error is None,
        s.role !is Leader ==> untouched(s, s.submit(data).node) && s.submit(data).sent.len() == 0,
        s.role is Leader ==> {
            let n = s.submit(data).node;
            let sent = s.submit(data).sent;
            &&& same_setup(s, n)
            &&& n.log.len() == s.log.len() + 1
            &&& forall|i: int| 0 <= i < s.log.len() ==> #[trigger] n.log[i] == s.log[i]
            &&& n.log[s.log.len() as int].data == data
            &&& n.log[s.log.len() as int].term == s.term
            &&& n.log[s.log.len() as int].index == s.log.len() + 1
            &&& n.committed == s.committed
            &&& n.term == s.term
            &&& n.voted_for == s.voted_for
            &&& n.leader_id == s.leader_id
            &&& n.role == s.role
            &&& n.election_timeout == s.election_timeout
            &&& one_append_each(sent, s.id, s.cluster_size)
            &&& forall|to: u64|
                1 <= to <= s.cluster_size && to != s.id ==> {
                    &&& brings_from(
                        #[trigger] append_to(sent, s.id, to),
                        n,
                        (s.log.len() + 1) as int,
                        to,
                    )
                    &&& append_to(sent, s.id, to).entries.len() == 1
                    &&& append_to(sent, s.id, to).entries[0].data == data
                }
        },
{
    if s.role is Leader {
        let n = s.submit(data).node;
        lemma_appends(n, n.cluster_size as nat);
        assert forall|to: u64| 1 <= to <= s.cluster_size && to != s.id implies {
            &&& brings_from(
                #[trigger] append_to(s.submit(data).sent, s.id, to),
                n,
                (s.log.len() + 1) as int,
                to,
            )
            &&& append_to(s.submit(data).sent, s.id, to).entries.len() == 1
            &&& append_to(s.submit(data).sent, s.id, to).entries[0].data == data
        } by {
            lemma_brings(n, (s.log.len() + 1) as u64, to);
            assert(is_append_to(n.last_entry_appends(n.cluster_size as nat)[place(to, s.id)], to));
        }
        assert forall|to: u64| 1 <= to <= s.cluster_size && to != s.id implies is_append_to(
            s.submit(data).sent[place(to, s.id)],
            to,
        ) by {
            assert(is_append_to(n.last_entry_appends(n.cluster_size as nat)[place(to, s.id)], to));
        }
    }
}

/// `after` is what the candidate `before` is once it won: it leads its term,
/// has recorded an empty entry in it, knows nothing of the others' logs yet,
/// and sends everyone that entry.
pub open spec fn takes_the_lead(
    before: NodeModel,
    after: NodeModel,
    sent: Seq<Outgoing>,
    timeout: u64,
) -> bool {
    &&& same_setup(before, after)
    &&& after.term == before.term
    &&& after.leader_id == before.id
    &&& after.voted_for == before.id
    &&& after.committed == before.committed
    &&& after.election_timeout == timeout
    &&& after.log.len() == before.log.len() + 1
    &&& forall|i: int| 0 <= i < before.log.len() ==> #[trigger] after.log[i] == before.log[i]
    &&& after.log[before.log.len() as int] == (EntryView {
        term: before.term,
        index: (before.log.len() + 1) as u64,
        data: Seq::empty(),
    })
    &&& after.role matches RoleView::Leader { ticks, progress } && ticks == 0 && progress.len()
        == before.cluster_size && forall|i: int|
        0 <= i < progress.len() ==> (#[trigger] progress[i]).next_index == before.log.len() + 1
            && progress[i].match_index == 0 && progress[i].consecutive_failures == 0
    &&& one_append_each(sent, before.id, before.cluster_size)
    &&& forall|to: u64|
        1 <= to <= before.cluster_size && to != before.id ==> brings_from(
            #[trigger] append_to(sent, before.id, to),
            after,
            (before.log.len() + 1) as int,
            to,
        )
}

proof fn lemma_takes_the_lead(s: NodeModel, timeout: u64)
    requires
        s.wf(),
        s.log.len() + 1 < u64::MAX,
    ensures
        takes_the_lead(s, s.become_leader(timeout).node, s.become_leader(timeout).sent, timeout),
{
    let n = s.become_leader(timeout).node;
    let sent = s.become_leader(timeout).sent;
    assert(n.wf());
    lemma_appends(n, n.cluster_size as nat);
    assert forall|to: u64| 1 <= to <= s.cluster_size && to != s.id implies brings_from(
        #[trigger] append_to(sent, s.id, to),
        n,
        (s.log.len() + 1) as int,
        to,
    ) by {
        lemma_brings(n, (s.log.len() + 1) as u64, to);
        assert(is_append_to(n.appends(n.cluster_size as nat)[place(to, s.id)], to));
    }
    assert forall|to: u64| 1 <= to <= s.cluster_size && to != s.id implies is_append_to(
        sent[place(to, s.id)],
        to,
    ) by {
        assert(is_append_to(n.appends(n.cluster_size as nat)[place(to, s.id)], to));
    }
}

/// With each tick a follower or candidate waits on until its election timeout
/// is over, and then campaigns. A candidate that more than half of the nodes
/// voted for leads instead. A leader sends a heartbeat to all, once every so
/// many ticks as it is set up to. Nothing else comes of a tick.
pub proof fn law_tick(s: NodeModel, timeout: u64)
    requires
        s.wf(),
        s.can_tick(),
    ensures
        ({
            let n = s.tick(timeout).node;
            let sent = s.tick(timeout).sent;
            let won = s.role matches RoleView::Candidate { ticks, votes } && 2 * voters_of(
                votes,
                Vote::For,
            ).len() > s.cluster_size;
            let waited = match s.role {
                RoleView::Follower { promotable, ticks } => ticks + 1,
                RoleView::Candidate { ticks, votes } => ticks + 1,
                RoleView::Leader { ticks, progress } => ticks + 1,
            };
            &&& s.tick(timeout).error is None
            &&& s.role !is Leader && waited >= s.election_timeout ==> s.tick(timeout)
                == s.start_campaign(timeout)
            &&& s.role !is Leader && waited < s.election_timeout && won ==> takes_the_lead(
                s,
                n,
                sent,
                timeout,
            )
            &&& s.role !is Leader && waited < s.election_timeout && !won ==> {
                &&& same_setup(s, n)
                &&& same_log(s, n)
                &&& sent.len() == 0
                &&& n.term == s.term
                &&& n.voted_for == s.voted_for
                &&& n.leader_id == s.leader_id
                &&& n.election_timeout == s.election_timeout
                &&& match s.role {
                    RoleView::Follower { promotable, ticks } => n.role == (RoleView::Follower {
                        promotable,
                        ticks: (ticks + 1) as u64,
                    }),
                    RoleView::Candidate { ticks, votes } => n.role == (RoleView::Candidate {
                        ticks: (ticks + 1) as u64,
                        votes,
                    }),
                    RoleView::Leader { ticks, progress } => false,
                }
            }
            &&& s.role matches RoleView::Leader { ticks, progress } ==> {
                let due = waited >= s.heartbeat_interval;
                &&& same_setup(s, n)
                &&& same_log(s, n)
                &&& n.term == s.term
                &&& n.voted_for == s.voted_for
                &&& n.leader_id == s.leader_id
                &&& n.election_timeout == s.election_timeout
                &&& n.role == (RoleView::Leader {
                    ticks: if due {
                        0
                    } else {
                        (ticks + 1) as u64
                    },
                    progress,
                })
                &&& due ==> sent.len() == 1 && (sent[0] matches Outgoing::All(
                    MessageView::Heartbeat(h),
                ) && tells(h, s, 0))
                &&& !due ==> sent.len() == 0
            }
        }),
{
    if let RoleView::Candidate { ticks, votes } = s.role {
        law_more_than_half_decides(votes);
        if !(ticks + 1 >= s.election_timeout) {
            lemma_takes_the_lead(s, timeout);
        }
    }
}

/// A node that hears a heartbeat of its term or of a later one follows the
/// sender, in the sender's term, and its wait for an election starts over.
/// It keeps its vote in its own term and has none in a later one. A leader of
/// the same term does nothing. The heartbeat of an earlier term changes
/// nothing. Whoever does not lead that term tells the sender how it stands.
pub proof fn law_heartbeat_is_followed(s: NodeModel, m: Heartbeat)
    requires
        s.wf(),
    ensures
        ({
            let n = s.on_heartbeat(m).node;
            let sent = s.on_heartbeat(m).sent;
            let follows = m.term > s.term || (m.term == s.term && s.role !is Leader);
            &&& s.on_heartbeat(m).error is None
            &&& same_setup(s, n)
            &&& same_log(s, n)
            &&& n.election_timeout == s.election_timeout
            &&& follows ==> {
                &&& n.leader_id == m.from
                &&& n.term == m.term
                &&& n.role matches RoleView::Follower { promotable, ticks } && ticks == 0
                &&& s.role matches RoleView::Follower { promotable, ticks } ==> (n.role matches RoleView::Follower {
                    promotable: p,
                    ticks: t,
                } && p == promotable)
                &&& n.voted_for == if m.term > s.term {
                    0
                } else {
                    s.voted_for
                }
            }
            &&& !follows ==> untouched(s, n)
            &&& m.term == s.term && s.role is Leader ==> sent.len() == 0
            &&& !(m.term == s.term && s.role is Leader) ==> sent.len() == 1 && (
            sent[0] matches Outgoing::To(MessageView::HeartbeatResponse(h)) && tells(h, n, m.from))
        }),
{
}

/// What a leader does with the answer of a follower to a heartbeat: it goes
/// back to where the follower's log ends, if it was beyond, and sends what
/// follows there if it does not know the follower to hold its whole log, or if
/// the follower has committed less. An answer of a later term makes any node
/// step down; any other answer changes nothing.
pub proof fn law_heartbeat_answer_is_used(s: NodeModel, m: Heartbeat)
    requires
        s.wf(),
    ensures
        ({
            let n = s.on_heartbeat_response(m).node;
            let sent = s.on_heartbeat_response(m).sent;
            let known = m.term == s.term && s.role is Leader && 1 <= m.from <= s.cluster_size;
            &&& s.on_heartbeat_response(m).error is None
            &&& m.term > s.term ==> steps_down(s, n, m.term) && n.leader_id == s.leader_id
                && n.role == (RoleView::Follower { promotable: true, ticks: 0 }) && sent.len() == 0
            &&& m.term <= s.term && !known ==> untouched(s, n) && sent.len() == 0
            &&& known ==> {
                let old_p = s.role->progress[m.from - 1];
                let new_p = n.role->progress[m.from - 1];
                &&& same_setup(s, n)
                &&& same_log(s, n)
                &&& n.term == s.term
                &&& n.voted_for == s.voted_for
                &&& n.leader_id == s.leader_id
                &&& n.election_timeout == s.election_timeout
                &&& n.role is Leader
                &&& n.role->Leader_ticks == s.role->Leader_ticks
                &&& n.role->progress.len() == s.role->progress.len()
                &&& forall|i: int|
                    0 <= i < s.role->progress.len() && i != m.from - 1
                        ==> #[trigger] n.role->progress[i] == s.role->progress[i]
                &&& new_p.match_index == old_p.match_index
                &&& new_p.consecutive_failures == old_p.consecutive_failures
                &&& new_p.next_index <= old_p.next_index
                &&& new_p.next_index <= m.last_index + 1
                &&& new_p.next_index == old_p.next_index || new_p.next_index == m.last_index + 1
                &&& (old_p.match_index < s.log.len() || m.commit < s.committed) <==> sent.len() == 1
                &&& sent.len() <= 1
                &&& sent.len() == 1 ==> is_append_to(sent[0], m.from)
                &&& sent.len() == 1 && 1 <= old_p.next_index <= s.log.len() + 1 ==> brings_from(
                    sent[0].message()->Append_0,
                    s,
                    new_p.next_index as int,
                    m.from,
                )
            }
        }),
{
    if m.term == s.term && s.role is Leader && 1 <= m.from <= s.cluster_size {
        let n = s.on_heartbeat_response(m).node;
        let next = n.role->progress[m.from - 1].next_index;
        if 1 <= s.role->progress[m.from - 1].next_index <= s.log.len() + 1 {
            lemma_brings(n, next, m.from);
        }
    }
}

/// A node grants its vote to whoever asks in its own term or a later one, if
/// it has not voted for another in that term and the candidate's log ends in a
/// later term than its own, or in the same with no fewer entries. It then
/// remembers its vote. To have been asked in a later term makes it a follower
/// of nobody in that term; else its role and leader stay.
pub proof fn law_vote_is_granted_when_due(s: NodeModel, m: RequestVote)
    requires
        s.wf(),
        m.from != 0,
    ensures
        ({
            let n = s.on_vote_request(m).node;
            let sent = s.on_vote_request(m).sent;
            let newer = m.candidate_term > s.term;
            let free = newer || s.voted_for == 0;
            let fit = m.last_term > end_term(s.log) || (m.last_term == end_term(s.log)
                && m.last_index >= s.log.len());
            let granted = m.candidate_term >= s.term && (if free {
                fit
            } else {
                s.voted_for == m.from
            });
            &&& s.on_vote_request(m).error is None
            &&& same_setup(s, n)
            &&& same_log(s, n)
            &&& n.election_timeout == s.election_timeout
            &&& n.term == if newer {
                m.candidate_term
            } else {
                s.term
            }
            &&& granted ==> n.voted_for == m.from
            &&& !granted ==> n.voted_for == if newer {
                0
            } else {
                s.voted_for
            }
            &&& newer ==> n.leader_id == 0 && n.role is Follower
            &&& newer && s.role is Follower ==> n.role == s.role
            &&& newer && s.role !is Follower ==> n.role == (RoleView::Follower {
                promotable: true,
                ticks: 0,
            })
            &&& !newer ==> n.leader_id == s.leader_id && n.role == s.role
            &&& sent.len() == 1
            &&& sent[0] matches Outgoing::To(MessageView::RequestVoteResponse(r)) && {
                &&& r.to == m.from
                &&& r.from == s.id
                &&& r.term == n.term
                &&& r.voted_for == m.from <==> granted
                &&& r.voted_for == if m.candidate_term < s.term {
                    0
                } else {
                    n.voted_for
                }
            }
        }),
{
}

/// A candidate counts the vote that it gets in its own term, for itself or
/// against. Once more than half of the nodes voted for it it leads, and once
/// more than half voted against it follows. Word of a later term makes any
/// node step down; any other word changes nothing.
pub proof fn law_votes_are_counted(s: NodeModel, m: RequestVoteResponse, timeout: u64)
    requires
        s.wf(),
        s.can_step(MessageView::RequestVoteResponse(m)),
    ensures
        ({
            let n = s.on_vote_response(m, timeout).node;
            let sent = s.on_vote_response(m, timeout).sent;
            let counts = m.term == s.term && s.role is Candidate;
            &&& s.on_vote_response(m, timeout).error is None
            &&& m.term > s.term ==> steps_down(s, n, m.term) && n.leader_id == s.leader_id
                && sent.len() == 0 && (s.role is Follower ==> n.role == s.role) && (s.role
                !is Follower ==> n.role == (RoleView::Follower { promotable: true, ticks: 0 }))
            &&& m.term <= s.term && !counts ==> untouched(s, n) && sent.len() == 0
            &&& counts ==> {
                let votes = s.role->votes;
                let cast = if m.voted_for == s.id {
                    Vote::For
                } else {
                    Vote::Against
                };
                let now = Seq::new(
                    votes.len(),
                    |i: int|
                        if i + 1 == m.from {
                            cast
                        } else {
                            votes[i]
                        },
                );
                let won = 2 * voters_of(now, Vote::For).len() > s.cluster_size;
                let lost = 2 * voters_of(now, Vote::Against).len() > s.cluster_size;
                &&& !(won && lost)
                &&& won ==> takes_the_lead(s, n, sent, timeout)
                &&& !won ==> {
                    &&& same_setup(s, n)
                    &&& same_log(s, n)
                    &&& n.term == s.term
                    &&& n.voted_for == s.voted_for
                    &&& n.leader_id == s.leader_id
                    &&& n.election_timeout == s.election_timeout
                    &&& sent.len() == 0
                    &&& lost ==> n.role == (RoleView::Follower { promotable: true, ticks: 0 })
                    &&& !lost ==> n.role == (RoleView::Candidate {
                        ticks: s.role->Candidate_ticks,
                        votes: now,
                    })
                }
            }
        }),
{
    if m.term == s.term && s.role is Candidate {
        let votes = s.role->votes;
        let cast = if m.voted_for == s.id {
            Vote::For
        } else {
            Vote::Against
        };
        let now = Seq::new(
            votes.len(),
            |i: int|
                if i + 1 == m.from {
                    cast
                } else {
                    votes[i]
                },
        );
        assert(now =~= votes.update(m.from - 1, cast));
        law_more_than_half_decides(now);
        let counted = NodeModel {
            role: RoleView::Candidate { ticks: s.role->Candidate_ticks, votes: now },
            ..s
        };
        lemma_takes_the_lead(counted, timeout);
    }
}

/// The log of a node that took in `m`: it holds the entries of `m` behind the
/// one they follow, and all that it held up to there. What it held behind them
/// it still holds, unless an entry of `m` took the place of one of another
/// term.
pub open spec fn took_in(before: Seq<EntryView>, after: Seq<EntryView>, m: AppendView) -> bool {
    let end = m.last_index + m.entries.len();
    let clash = exists|i: int|
        m.last_index <= i < before.len() && i < end && (#[trigger] before[i]).term != m.entries[i
            - m.last_index].term;
    &&& forall|i: int| 0 <= i < m.last_index ==> #[trigger] after[i] == before[i]
    &&& forall|i: int|
        0 <= i < m.entries.len() ==> after[m.last_index + i] == #[trigger] m.entries[i]
    &&& clash || before.len() <= end ==> after.len() == end
    &&& !clash && before.len() > end ==> after.len() == before.len() && forall|i: int|
        end <= i < before.len() ==> #[trigger] after[i] == before[i]
}

/// What comes of putting entries that follow each other into a log that
/// reaches up to them.
proof fn lemma_took_in(log: Seq<EntryView>, entries: Seq<EntryView>, from: int)
    requires
        well_indexed(log),
        0 <= from <= log.len(),
        from + entries.len() < u64::MAX,
        forall|i: int| 0 <= i < entries.len() ==> (#[trigger] entries[i]).index == from + i + 1,
    ensures
        first_misfit(log, entries) is None,
        ({
            let after = put_all(log, entries);
            let end = from + entries.len();
            let clash = exists|i: int|
                from <= i < log.len() && i < end && (#[trigger] log[i]).term != entries[i
                    - from].term;
            &&& forall|i: int| 0 <= i < from ==> #[trigger] after[i] == log[i]
            &&& forall|i: int| 0 <= i < entries.len() ==> after[from + i] == #[trigger] entries[i]
            &&& clash || log.len() <= end ==> after.len() == end
            &&& !clash && log.len() > end ==> after.len() == log.len() && forall|i: int|
                end <= i < log.len() ==> #[trigger] after[i] == log[i]
        }),
    decreases entries.len(),
{
    if entries.len() > 0 {
        let e = entries[0];
        let rest = entries.drop_first();
        let next = put(log, e);
        assert(e.index == from + 1);
        assert forall|i: int| 0 <= i < rest.len() implies (#[trigger] rest[i]).index == from + 1 + i
            + 1 by {
            assert(entries[i + 1].index == from + (i + 1) + 1);
        }
        lemma_took_in(next, rest, from + 1);
        let after = put_all(log, entries);
        assert(after == put_all(next, rest));
        let end = from + entries.len();
        assert forall|i: int| 0 <= i < entries.len() implies after[from + i]
            == #[trigger] entries[i] by {
            if i == 0 {
                assert(after[from] == next[from]);
            } else {
                assert(after[from + 1 + (i - 1)] == rest[i - 1]);
            }
        }
        assert forall|i: int| 0 <= i < from implies #[trigger] after[i] == log[i] by {
            assert(after[i] == next[i]);
        }
        let here = from < log.len() && log[from].term != e.term;
        if from < log.len() && log[from].term == e.term {
            assert(next.len() == log.len());
            assert forall|i: int| from + 1 <= i < log.len() implies #[trigger] next[i]
                == log[i] by {}
            if exists|i: int|
                from <= i < log.len() && i < end && (#[trigger] log[i]).term != entries[i
                    - from].term {
                let i = choose|i: int|
                    from <= i < log.len() && i < end && (#[trigger] log[i]).term != entries[i
                        - from].term;
                assert(next[i].term != rest[i - (from + 1)].term);
            } else {
                assert forall|i: int| from + 1 <= i < next.len() && i < end implies (
                #[trigger] next[i]).term == rest[i - (from + 1)].term by {
                    assert(log[i].term == entries[i - from].term);
                }
                if log.len() > end {
                    assert forall|i: int| end <= i < log.len() implies #[trigger] after[i]
                        == log[i] by {
                        assert(next[i] == log[i]);
                    }
                }
            }
        } else {
            assert(next.len() == from + 1);
            if from < log.len() {
                assert(log[from].term != entries[from - from].term);
            }
        }
    }
}

/// A node takes in what a leader of its term or of a later one sends, if it
/// holds the entry that precedes it: its log then holds those entries, and it
/// has committed what the leader has, as far as they go. If it does not hold
/// that entry its log stays and it says so. Either way it follows the sender's
/// word on the term and on who leads, and its wait for an election starts
/// over. What comes of an earlier term it refuses.
pub proof fn law_entries_are_taken_in(s: NodeModel, m: AppendView)
    requires
        s.wf(),
        s.log.len() + m.entries.len() < u64::MAX,
        forall|i: int|
            0 <= i < m.entries.len() ==> (#[trigger] m.entries[i]).index == m.last_index + i + 1,
    ensures
        ({
            let n = s.on_append(m).node;
            let sent = s.on_append(m).sent;
            let current = m.leader_term >= s.term;
            let holds = m.last_index == 0 || (m.last_index <= s.log.len() && s.log[m.last_index
                - 1].term == m.last_term);
            let end = m.last_index + m.entries.len();
            &&& s.on_append(m).error is None
            &&& same_setup(s, n)
            &&& n.election_timeout == s.election_timeout
            &&& !current ==> untouched(s, n)
            &&& current ==> {
                &&& n.term == m.leader_term
                &&& n.leader_id == m.from
                &&& n.voted_for == if m.leader_term > s.term {
                    0
                } else {
                    s.voted_for
                }
                &&& m.leader_term > s.term ==> n.role is Follower
                &&& n.role matches RoleView::Follower { promotable, ticks } ==> ticks == 0
                &&& s.role is Follower ==> n.role is Follower && n.role->promotable
                    == s.role->promotable
                &&& m.leader_term == s.term && s.role !is Follower ==> n.role == s.role
            }
            &&& current && holds ==> {
                &&& took_in(s.log, n.log, m)
                &&& n.committed >= s.committed
                &&& end <= m.leader_commit ==> n.committed >= end
                &&& m.leader_commit <= end ==> n.committed >= m.leader_commit
                &&& n.committed == s.committed || (n.committed <= end && n.committed
                    <= m.leader_commit)
            }
            &&& !(current && holds) ==> same_log(s, n)
            &&& sent.len() == 1
            &&& sent[0] matches Outgoing::To(MessageView::AppendResponse(a)) && {
                &&& a.to == m.from
                &&& a.from == s.id
                &&& a.term == n.term
                &&& a.success <==> current && holds
                &&& a.last_index == if current && holds {
                    end as int
                } else {
                    s.log.len() as int
                }
            }
        }),
{
    if m.last_index <= s.log.len() {
        lemma_took_in(s.log, m.entries, m.last_index as int);
    }
}

/// The nodes that the leader `s` knows to hold the entry `index`: itself, and
/// those that said so.
pub open spec fn known_holders(s: NodeModel, index: int) -> Set<int> {
    Set::new(
        |i: int|
            0 <= i < s.role->progress.len() && (i + 1 == s.id || s.role->progress[i].match_index
                >= index),
    )
}

/// The entry `index` is of the leader's own term and more than half of the
/// nodes are known to hold it.
pub open spec fn on_a_majority(s: NodeModel, index: int) -> bool {
    &&& 1 <= index <= s.log.len()
    &&& s.log[index - 1].term == s.term
    &&& 2 * known_holders(s, index).len() > s.cluster_size
}

proof fn lemma_on_a_majority(s: NodeModel, index: int)
    requires
        s.wf(),
        s.role is Leader,
        1 <= index <= s.log.len(),
    ensures
        on_a_majority(s, index) <==> s.committable(index),
{
    law_count_is_the_number_of_places(s.holders(index));
    assert(places_set(s.holders(index)) =~= known_holders(s, index));
}

proof fn lemma_commit_reaches(s: NodeModel, upto: nat, index: int)
    requires
        s.wf(),
        s.role is Leader,
        s.committed < index <= upto <= s.log.len(),
        s.committable(index),
    ensures
        s.commit_point(upto) >= index,
    decreases upto,
{
    if !s.committable(upto as int) {
        lemma_commit_reaches(s, (upto - 1) as nat, index);
    }
}

proof fn lemma_commit_is_earned(s: NodeModel, upto: nat)
    requires
        s.wf(),
        s.role is Leader,
        upto <= s.log.len(),
    ensures
        s.commit_point(upto) == s.committed || (s.committed < s.commit_point(upto) <= upto
            && s.committable(s.commit_point(upto) as int)),
    decreases upto,
{
    if upto > s.committed && !s.committable(upto as int) {
        lemma_commit_is_earned(s, (upto - 1) as nat);
    }
}

/// What a leader does with the answer of a follower to an `Append`. If the
/// follower took the entries in, the leader knows it to hold all up to there,
/// goes on behind, and commits every entry of its own term that more than half
/// of the nodes are then known to hold, with all that precede it, and no
/// other. If it did not, the leader goes back by one entry and sends again from
/// there. An answer of a later term makes any node step down; any other answer
/// changes nothing.
pub proof fn law_append_answer_is_used(s: NodeModel, m: AppendResponse)
    requires
        s.wf(),
        s.can_step(MessageView::AppendResponse(m)),
    ensures
        ({
            let n = s.on_append_response(m).node;
            let sent = s.on_append_response(m).sent;
            let known = m.term == s.term && s.role is Leader && 1 <= m.from <= s.cluster_size;
            &&& s.on_append_response(m).error is None
            &&& m.term > s.term ==> steps_down(s, n, m.term) && n.leader_id == s.leader_id
                && n.role == (RoleView::Follower { promotable: true, ticks: 0 }) && sent.len() == 0
            &&& m.term <= s.term && !known ==> untouched(s, n) && sent.len() == 0
            &&& known ==> {
                let old_p = s.role->progress[m.from - 1];
                let new_p = n.role->progress[m.from - 1];
                &&& same_setup(s, n)
                &&& n.log == s.log
                &&& n.term == s.term
                &&& n.voted_for == s.voted_for
                &&& n.leader_id == s.leader_id
                &&& n.election_timeout == s.election_timeout
                &&& n.role is Leader
                &&& n.role->Leader_ticks == s.role->Leader_ticks
                &&& n.role->progress.len() == s.role->progress.len()
                &&& forall|i: int|
                    0 <= i < s.role->progress.len() && i != m.from - 1
                        ==> #[trigger] n.role->progress[i] == s.role->progress[i]
                &&& m.success ==> {
                    &&& sent.len() == 0
                    &&& new_p.next_index == new_p.match_index + 1
                    &&& new_p.consecutive_failures == 0
                    &&& new_p.match_index <= s.log.len()
                    &&& m.last_index <= s.log.len() ==> new_p.match_index >= m.last_index
                    &&& old_p.match_index <= s.log.len() ==> new_p.match_index
                        >= old_p.match_index
                    &&& new_p.match_index == m.last_index || new_p.match_index
                        == old_p.match_index || new_p.match_index == s.log.len()
                    &&& m.last_index <= old_p.match_index <= s.log.len() ==> new_p.match_index
                        == old_p.match_index
                    &&& old_p.match_index <= m.last_index <= s.log.len() ==> new_p.match_index
                        == m.last_index
                    &&& n.committed >= s.committed
                    &&& forall|i: int|
                        s.committed < i <= s.log.len() && #[trigger] on_a_majority(n, i)
                            ==> n.committed >= i
                    &&& n.committed > s.committed ==> on_a_majority(n, n.committed as int)
                }
                &&& !m.success ==> {
                    &&& n.committed == s.committed
                    &&& new_p.match_index == old_p.match_index
                    &&& new_p.consecutive_failures == old_p.consecutive_failures + 1
                    &&& old_p.next_index > 1 ==> new_p.next_index == old_p.next_index - 1
                    &&& old_p.next_index <= 1 ==> new_p.next_index == old_p.next_index
                    &&& sent.len() == 1
                    &&& is_append_to(sent[0], m.from)
                    &&& 1 <= old_p.next_index <= s.log.len() + 1 ==> brings_from(
                        sent[0].message()->Append_0,
                        s,
                        new_p.next_index as int,
                        m.from,
                    )
                }
            }
        }),
{
    if m.term == s.term && s.role is Leader && 1 <= m.from <= s.cluster_size {
        let n = s.on_append_response(m).node;
        if m.success {
            let known = s.with_match(m.from, m.last_index);
            assert(known.wf());
            lemma_commit_is_earned(known, known.log.len());
            assert forall|i: int|
                s.committed < i <= s.log.len() && #[trigger] on_a_majority(n, i) implies n.committed
                >= i by {
                assert(known_holders(n, i) =~= known_holders(known, i));
                lemma_on_a_majority(known, i);
                lemma_commit_reaches(known, known.log.len(), i);
            }
            if n.committed > s.committed {
                lemma_on_a_majority(known, n.committed as int);
                assert(known_holders(n, n.committed as int) =~= known_holders(
                    known,
                    n.committed as int,
                ));
            }
        } else if 1 <= s.role->progress[m.from - 1].next_index <= s.log.len() + 1 {
            lemma_brings(n, n.role->progress[m.from - 1].next_index, m.from);
        }
    }
}

/// Each message is handled as what it is.
pub proof fn law_messages_are_handled_as_what_they_are(
    s: NodeModel,
    h: Heartbeat,
    a: AppendView,
    r: AppendResponse,
    q: RequestVote,
    v: RequestVoteResponse,
    timeout: u64,
)
    ensures
        s.step(MessageView::StartCampaign, timeout) == s.start_campaign(timeout),
        s.step(MessageView::Heartbeat(h), timeout) == s.on_heartbeat(h),
        s.step(MessageView::HeartbeatResponse(h), timeout) == s.on_heartbeat_response(h),
        s.step(MessageView::Append(a), timeout) == s.on_append(a),
        s.step(MessageView::AppendResponse(r), timeout) == s.on_append_response(r),
        s.step(MessageView::RequestVote(q), timeout) == s.on_vote_request(q),
        s.step(MessageView::RequestVoteResponse(v), timeout) == s.on_vote_response(v, timeout),
{
}

/// A node that is sent an entry that cannot stand in its log keeps those before
/// it, says where the first such entry is, commits nothing and answers nothing.
pub proof fn law_misfits_are_reported(
    s: NodeModel,
    m: AppendView,
    good: Seq<EntryView>,
    bad: EntryView,
    more: Seq<EntryView>,
)
    requires
        s.wf(),
        m.leader_term >= s.term,
        m.last_index <= s.log.len(),
        m.last_index == 0 || s.log[m.last_index - 1].term == m.last_term,
        m.entries == good + (seq![bad] + more),
        m.last_index + good.len() < u64::MAX,
        forall|i: int|
            0 <= i < good.len() ==> (#[trigger] good[i]).index == m.last_index + i + 1,
        bad.index == 0 || bad.index > put_all(s.log, good).len() + 1,
    ensures
        ({
            let effect = s.on_append(m);
            &&& effect.error == Some(Error::InvalidIdx(bad.index))
            &&& effect.sent.len() == 0
            &&& effect.node.committed == s.committed
            &&& effect.node.leader_id == m.from
            &&& effect.node.term == m.leader_term
            &&& took_in(s.log, effect.node.log, AppendView { entries: good, ..m })
        }),
{
    lemma_took_in(s.log, good, m.last_index as int);
    law_entries_are_put_in_order(s.log, good, seq![bad] + more);
    law_gaps_are_refused(put_all(s.log, good), bad, more);
}

/// A leader that takes a follower to be beyond its own log says so, and sends
/// nothing but that.
pub proof fn law_nothing_is_sent_beyond_the_log(s: NodeModel, next: u64, to: u64)
    requires
        s.wf(),
        next > s.log.len() + 1,
    ensures
        s.append_from(next, to).entries.len() == 0,
        s.append_from(next, to).last_index == next - 1,
        s.append_from(next, to).to == to,
        s.append_from(next, to).from == s.id,
        s.append_from(next, to).leader_term == s.term,
        s.append_from(next, to).leader_commit == s.committed,
{
}

} // verus!
