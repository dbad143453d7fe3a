//! What holds of a node over several ticks, messages and answers.
use vstd::prelude::*;

use crate::communication::Outgoing;
use crate::model::{max, NodeModel};
use crate::proto::{AppendResponse, Heartbeat, MessageView, RequestVote, RequestVoteResponse};
use crate::quorum::{count_set, count_votes, first_votes, has_majority, vote_flags, Vote};
use crate::role::RoleView;

verus! {

/// The term that a message carries.
pub open spec fn term_of(m: MessageView) -> u64 {
    match m {
        MessageView::Heartbeat(m) => m.term,
        MessageView::HeartbeatResponse(m) => m.term,
        MessageView::Append(m) => m.leader_term,
        MessageView::AppendResponse(m) => m.term,
        MessageView::RequestVote(m) => m.candidate_term,
        MessageView::RequestVoteResponse(m) => m.term,
        MessageView::StartCampaign => 0,
    }
}

/// Terms only rise: a node that handles a message is then in the later of the
/// two terms. In a term that is new to it, it follows and has not voted, or
/// has voted for the candidate that asked. What it is set up with stays.
pub proof fn law_terms_only_rise(s: NodeModel, m: MessageView, timeout: u64)
    requires
        s.wf(),
        m !is StartCampaign,
    ensures
        ({
            let n = s.step(m, timeout).node;
            &&& n.term == max(s.term as int, term_of(m) as int)
            &&& term_of(m) > s.term ==> {
                &&& n.role is Follower
                &&& n.voted_for == 0 || (m is RequestVote && n.voted_for == m.from())
            }
            &&& n.id == s.id
            &&& n.cluster_size == s.cluster_size
            &&& n.min_timeout == s.min_timeout
            &&& n.max_timeout == s.max_timeout
            &&& n.heartbeat_interval == s.heartbeat_interval
        }),
{
}

/// The node `s` after ticks that draw `timeouts`, one after the other.
pub open spec fn after_ticks(s: NodeModel, timeouts: Seq<u64>) -> NodeModel
    decreases timeouts.len(),
{
    if timeouts.len() == 0 {
        s
    } else {
        after_ticks(s, timeouts.drop_last()).tick(timeouts.last()).node
    }
}

/// What the node `s` sends during ticks that draw `timeouts`.
pub open spec fn sent_by_ticks(s: NodeModel, timeouts: Seq<u64>) -> Seq<Outgoing>
    decreases timeouts.len(),
{
    if timeouts.len() == 0 {
        Seq::empty()
    } else {
        sent_by_ticks(s, timeouts.drop_last()) + after_ticks(s, timeouts.drop_last()).tick(
            timeouts.last(),
        ).sent
    }
}

proof fn lemma_ticks_add(s: NodeModel, a: Seq<u64>, b: Seq<u64>)
    ensures
        after_ticks(s, a + b) == after_ticks(after_ticks(s, a), b),
        sent_by_ticks(s, a + b) == sent_by_ticks(s, a) + sent_by_ticks(after_ticks(s, a), b),
    decreases b.len(),
{
    if b.len() == 0 {
        assert(a + b =~= a);
        assert(sent_by_ticks(s, a) + Seq::<Outgoing>::empty() =~= sent_by_ticks(s, a));
    } else {
        assert((a + b).drop_last() =~= a + b.drop_last());
        lemma_ticks_add(s, a, b.drop_last());
        let x = sent_by_ticks(s, a);
        let y = sent_by_ticks(after_ticks(s, a), b.drop_last());
        let z = after_ticks(s, a + b.drop_last()).tick(b.last()).sent;
        assert(x + y + z =~= x + (y + z));
    }
}

/// A follower that hears nothing waits for as many ticks as its election
/// timeout says, and campaigns on the last of them and not before.
pub proof fn law_silent_follower_campaigns(s: NodeModel, timeouts: Seq<u64>)
    requires
        s.wf(),
        s.role matches RoleView::Follower { promotable, ticks } && ticks == 0,
        1 <= s.election_timeout,
        timeouts.len() <= s.election_timeout,
    ensures
        timeouts.len() < s.election_timeout ==> {
            &&& after_ticks(s, timeouts) == (NodeModel {
                role: RoleView::Follower {
                    promotable: s.role->promotable,
                    ticks: timeouts.len() as u64,
                },
                ..s
            })
            &&& sent_by_ticks(s, timeouts) == Seq::<Outgoing>::empty()
        },
        timeouts.len() == s.election_timeout ==> {
            &&& after_ticks(s, timeouts) == s.start_campaign(timeouts.last()).node
            &&& sent_by_ticks(s, timeouts) == s.start_campaign(timeouts.last()).sent
            &&& after_ticks(s, timeouts).role is Candidate
            &&& after_ticks(s, timeouts).voted_for == s.id
            &&& s.term < u64::MAX ==> after_ticks(s, timeouts).term == s.term + 1
        },
    decreases timeouts.len(),
{
    if timeouts.len() > 0 {
        law_silent_follower_campaigns(s, timeouts.drop_last());
        assert(Seq::<Outgoing>::empty() + s.start_campaign(timeouts.last()).sent
            =~= s.start_campaign(timeouts.last()).sent);
        assert(Seq::<Outgoing>::empty() + Seq::<Outgoing>::empty() =~= Seq::<Outgoing>::empty());
    }
}

/// A candidate without a majority that hears nothing waits for as many ticks
/// as its election timeout says, and campaigns anew on the last of them and
/// not before.
pub proof fn law_silent_candidate_campaigns_again(s: NodeModel, timeouts: Seq<u64>)
    requires
        s.wf(),
        s.role matches RoleView::Candidate { ticks, votes } && ticks == 0 && !has_majority(
            votes,
            Vote::For,
        ),
        1 <= s.election_timeout,
        timeouts.len() <= s.election_timeout,
    ensures
        timeouts.len() < s.election_timeout ==> {
            &&& after_ticks(s, timeouts) == (NodeModel {
                role: RoleView::Candidate {
                    ticks: timeouts.len() as u64,
                    votes: s.role->votes,
                },
                ..s
            })
            &&& sent_by_ticks(s, timeouts) == Seq::<Outgoing>::empty()
        },
        timeouts.len() == s.election_timeout ==> {
            &&& after_ticks(s, timeouts) == s.start_campaign(timeouts.last()).node
            &&& sent_by_ticks(s, timeouts) == s.start_campaign(timeouts.last()).sent
        },
    decreases timeouts.len(),
{
    if timeouts.len() > 0 {
        law_silent_candidate_campaigns_again(s, timeouts.drop_last());
        assert(Seq::<Outgoing>::empty() + s.start_campaign(timeouts.last()).sent
            =~= s.start_campaign(timeouts.last()).sent);
        assert(Seq::<Outgoing>::empty() + Seq::<Outgoing>::empty() =~= Seq::<Outgoing>::empty());
    }
}

proof fn lemma_one_set(flags: Seq<bool>, at: int)
    requires
        forall|i: int| 0 <= i < flags.len() ==> (#[trigger] flags[i] <==> i == at),
    ensures
        count_set(flags) == if 0 <= at < flags.len() {
            1nat
        } else {
            0nat
        },
    decreases flags.len(),
{
    if flags.len() > 0 {
        lemma_one_set(flags.drop_last(), at);
    }
}

/// A campaign starts with one vote, that of the candidate for itself, which is
/// no majority where there are others.
pub proof fn law_campaign_starts_with_own_vote(cluster_size: u64, id: u64)
    requires
        1 <= id <= cluster_size,
    ensures
        count_votes(first_votes(cluster_size, id), Vote::For) == 1,
        count_votes(first_votes(cluster_size, id), Vote::Against) == 0,
        cluster_size >= 2 ==> !has_majority(first_votes(cluster_size, id), Vote::For),
{
    let votes = first_votes(cluster_size, id);
    lemma_one_set(vote_flags(votes, Vote::For), id - 1);
    lemma_one_set(vote_flags(votes, Vote::Against), -1);
}

/// A follower that hears nothing campaigns once its election timeout is over,
/// and again once the timeout drawn then is over, two terms on and with its
/// own vote alone.
pub proof fn law_silence_brings_campaign_after_campaign(
    s: NodeModel,
    first: Seq<u64>,
    second: Seq<u64>,
)
    requires
        s.wf(),
        s.role matches RoleView::Follower { promotable, ticks } && ticks == 0,
        s.cluster_size >= 2,
        s.term < u64::MAX - 1,
        1 <= s.election_timeout == first.len(),
        1 <= first.last(),
        second.len() <= first.last(),
    ensures
        ({
            let n = after_ticks(s, first + second);
            &&& n.role is Candidate
            &&& second.len() < first.last() ==> n.term == s.term + 1 && sent_by_ticks(
                s,
                first + second,
            ) == s.start_campaign(first.last()).sent
            &&& second.len() == first.last() ==> {
                &&& n.term == s.term + 2
                &&& n.voted_for == s.id
                &&& count_votes(n.role->votes, Vote::For) == 1
                &&& count_votes(n.role->votes, Vote::Against) == 0
            }
        }),
{
    law_silent_follower_campaigns(s, first);
    lemma_ticks_add(s, first, second);
    law_campaign_starts_with_own_vote(s.cluster_size, s.id);
    let c = after_ticks(s, first);
    assert(c.wf());
    law_silent_candidate_campaigns_again(c, second);
    assert(s.start_campaign(first.last()).sent + Seq::<Outgoing>::empty() =~= s.start_campaign(
        first.last(),
    ).sent);
}

/// The answer that a node gives to a request for its vote.
pub open spec fn vote_answer(s: NodeModel, m: RequestVote) -> RequestVoteResponse {
    s.on_vote_request(m).sent[0].message()->RequestVoteResponse_0
}

/// A request for a vote gets one answer, to the one that asked.
pub proof fn law_vote_request_is_answered(s: NodeModel, m: RequestVote)
    requires
        s.wf(),
    ensures
        s.on_vote_request(m).sent == seq![
            Outgoing::To(MessageView::RequestVoteResponse(vote_answer(s, m))),
        ],
        vote_answer(s, m).to == m.from,
        vote_answer(s, m).from == s.id,
        vote_answer(s, m).term == max(s.term as int, m.candidate_term as int),
        m.candidate_term < s.term ==> {
            &&& vote_answer(s, m).voted_for == 0
            &&& s.on_vote_request(m).node == s
        },
        m.from != 0 && vote_answer(s, m).voted_for == m.from ==> {
            &&& s.on_vote_request(m).node.voted_for == m.from
            &&& vote_answer(s, m).term == m.candidate_term
        },
{
}

/// One vote per term: of two requests in one term, made one after the other,
/// both answers name the same candidate if they name one at all.
pub proof fn law_one_vote_over_two_requests(s: NodeModel, a: RequestVote, b: RequestVote)
    requires
        s.wf(),
        a.candidate_term == b.candidate_term,
        a.from != 0,
        b.from != 0,
    ensures
        ({
            let first = vote_answer(s, a);
            let second = vote_answer(s.on_vote_request(a).node, b);
            first.voted_for != 0 && second.voted_for != 0 ==> first.voted_for == second.voted_for
        }),
{
}

/// A candidate that hears of the leader of its own term follows it, and its
/// vote of that term stays spent: nobody else gets it.
pub proof fn law_vote_stays_spent(s: NodeModel, heartbeat: Heartbeat, request: RequestVote)
    requires
        s.wf(),
        s.role is Candidate,
        s.voted_for == s.id,
        heartbeat.term == s.term,
        request.candidate_term == s.term,
        request.from != s.id,
    ensures
        ({
            let f = s.on_heartbeat(heartbeat).node;
            &&& f.role is Follower
            &&& f.term == s.term
            &&& f.leader_id == heartbeat.from
            &&& f.voted_for == s.id
            &&& vote_answer(f, request).voted_for == s.id
            &&& f.on_vote_request(request).node.voted_for == s.id
        }),
{
}

proof fn lemma_nothing_committable(s: NodeModel, upto: nat)
    requires
        upto <= s.log.len() <= u64::MAX,
        forall|i: int| s.committed < i <= upto ==> (#[trigger] s.log[i - 1]).term != s.term,
    ensures
        s.commit_point(upto) == s.committed,
    decreases upto,
{
    if upto > s.committed {
        assert(s.log[upto - 1].term != s.term);
        lemma_nothing_committable(s, (upto - 1) as nat);
    }
}

/// Entries of earlier terms are not committed by counting who holds them,
/// however many do. Once the leader records an entry of its own term and an
/// answer puts that on a majority, all entries up to it are committed.
pub proof fn law_earlier_terms_wait_for_own(
    s: NodeModel,
    first: AppendResponse,
    data: Seq<u8>,
    second: AppendResponse,
)
    requires
        s.wf(),
        s.role is Leader,
        s.log.len() + 1 < u64::MAX,
        s.committed <= s.log.len(),
        forall|i: int| s.committed < i <= s.log.len() ==> (#[trigger] s.log[i - 1]).term != s.term,
        first.term == s.term,
        first.success,
        second.term == s.term,
        second.success,
        1 <= second.from <= s.cluster_size,
    ensures
        ({
            let a = s.on_append_response(first).node;
            let b = a.propose(data).node;
            let known = b.with_match(second.from, second.last_index);
            &&& a.committed == s.committed
            &&& b.log == s.log.push(b.log.last())
            &&& count_set(known.holders(b.log.len() as int)) > b.cluster_size / 2
                ==> b.on_append_response(second).node.committed == b.log.len()
        }),
{
    let a = s.on_append_response(first).node;
    if 1 <= first.from <= s.role->progress.len() {
        let known = s.with_match(first.from, first.last_index);
        lemma_nothing_committable(known, known.log.len());
    }
    let b = a.propose(data).node;
    assert(b.role is Leader);
    assert(b.log.last().term == b.term);
}

} // verus!
