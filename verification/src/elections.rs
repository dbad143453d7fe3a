//! Campaigns, elections and proposals keep the cluster consistent.
use vstd::prelude::*;

use crate::communication::Outgoing;
use crate::consistency::{shares, sorted};
use crate::frame::{
    lemma_acked_stable, lemma_commit_stable, lemma_electors_stable, lemma_inv_kept,
    lemma_log_stable, lemma_new_acks, lemma_vote_safe_stable, lemma_voted_stable,
};
use crate::model::NodeModel;
use crate::proto::{AppendResponse, EntryView, MessageView, RequestVoteResponse};
use crate::quorum::{has_majority, law_majorities_intersect, vote_flags, Vote};
use crate::steps::{
    lemma_append_for_ok, lemma_append_from_ok, lemma_commit_later, lemma_kept_stable, lemma_moves,
    lemma_new_out, no_ack, sent_fair,
};
use crate::storage::well_indexed;
use crate::world::{Event, World};

verus! {

/// A leader replicates to everyone but itself, and sends nothing else.
pub proof fn lemma_appends_content(s: NodeModel, upto: nat, o: Outgoing) -> (to: u64)
    requires
        upto <= u64::MAX,
        s.appends(upto).contains(o),
    ensures
        1 <= to <= upto,
        to != s.id,
        o == Outgoing::To(MessageView::Append(s.append_for(to))),
    decreases upto,
{
    let all = s.appends(upto);
    let j = choose|j: int| 0 <= j < all.len() && all[j] == o;
    if upto == s.id {
        lemma_appends_content(s, (upto - 1) as nat, o)
    } else if j == all.len() - 1 {
        upto as u64
    } else {
        assert(s.appends((upto - 1) as nat)[j] == o);
        lemma_appends_content(s, (upto - 1) as nat, o)
    }
}

pub proof fn lemma_appends_fair(s: NodeModel, upto: nat)
    requires
        upto <= u64::MAX,
    ensures
        sent_fair(s, s.appends(upto)),
        no_ack(s.appends(upto)),
{
    assert forall|o: Outgoing| #[trigger] s.appends(upto).contains(o) implies exists|to: u64|
        o == Outgoing::To(MessageView::Append(#[trigger] s.append_for(to))) by {
        let to = lemma_appends_content(s, upto, o);
    }
}

/// A leader that sends its last entry sends it to everyone but itself, and
/// sends nothing else.
pub proof fn lemma_last_entry_content(s: NodeModel, upto: nat, o: Outgoing) -> (to: u64)
    requires
        upto <= u64::MAX,
        s.last_entry_appends(upto).contains(o),
    ensures
        1 <= to <= upto,
        to != s.id,
        o == Outgoing::To(MessageView::Append(s.append_from(s.last_index(), to))),
    decreases upto,
{
    let all = s.last_entry_appends(upto);
    let j = choose|j: int| 0 <= j < all.len() && all[j] == o;
    if upto == s.id {
        lemma_last_entry_content(s, (upto - 1) as nat, o)
    } else if j == all.len() - 1 {
        upto as u64
    } else {
        assert(s.last_entry_appends((upto - 1) as nat)[j] == o);
        lemma_last_entry_content(s, (upto - 1) as nat, o)
    }
}

pub proof fn lemma_last_entry_fair(s: NodeModel, upto: nat)
    requires
        upto <= u64::MAX,
    ensures
        sent_fair(s, s.last_entry_appends(upto)),
{
    assert forall|o: Outgoing| #[trigger] s.last_entry_appends(upto).contains(o) implies exists|
        to: u64,
    |
        o == Outgoing::To(
            MessageView::Append(#[trigger] s.append_from(s.last_index(), to)),
        ) by {
        let to = lemma_last_entry_content(s, upto, o);
    }
}

/// A candidate campaigns with its own log in a term of its own.
pub proof fn lemma_campaign(w: World, e: Event, timeout: u64)
    requires
        w.inv(),
        w.enabled(e),
        w.nodes[e.node()].can_step(MessageView::StartCampaign),
        e.effect(w.nodes[e.node()]) == w.nodes[e.node()].start_campaign(timeout),
    ensures
        w.next(e).inv(),
        w.moves(w.next(e), e.node()),
{
    let i = e.node();
    let s = w.nodes[i];
    let f = e.effect(s);
    let n = f.node;
    let next = w.next(e);
    assert(w.node_ok(s));
    assert(n.role->votes.len() == n.cluster_size);
    assert(n.wf());
    assert(next.reigns == w.reigns);
    assert forall|t: u64| #[trigger] w.led(t) implies shares(
        next.leader_log(t),
        w.leader_log(t),
        w.leader_log(t).len() as int,
    ) by {}
    lemma_moves(w, e);
    assert(next.nodes[i] == n);
    assert(next.campaigned(n.term, n.id));
    assert(next.campaigns[(n.term, n.id)] == s.log);
    lemma_log_stable(w, next, i, s.log, s.term as int);
    lemma_commit_stable(w, next, i, s.log, s.term, s.committed as int);
    lemma_commit_later(next, s.log, s.term, n.term, s.committed as int);
    assert(next.candidate_ok(n, n.role->votes));
    assert(next.voted(n.id, n.term, n.voted_for));
    assert forall|t: u64, k: int| #[trigger] next.acked(s.id, t, k) implies w.acked(s.id, t, k) by {
        if next.reigns[t].leader != s.id {
            let m = choose|m: AppendResponse| #[trigger]
                next.has_ack(m) && m.success && m.from == s.id && m.term == t && m.last_index >= k;
            if !w.has_ack(m) {
                lemma_new_out(w, e, Outgoing::To(MessageView::AppendResponse(m)));
            }
        }
    }
    assert forall|t: u64, k: int| #[trigger] next.acked(s.id, t, k) implies n.term >= t && next.kept(
        n.log,
        n.term,
        t,
        k,
    ) by {
        assert(w.acked(s.id, t, k));
        lemma_kept_stable(w, next, i, s.log, s.term, t, k, n.term);
    }
    assert forall|o: Outgoing| #[trigger]
        next.net.contains(o) && !w.net.contains(o) implies next.out_ok(o) by {
        lemma_new_out(w, e, o);
    }
    assert forall|c: u64| #[trigger]
        next.voted(n.id, n.term, c) && !w.voted(n.id, n.term, c) && !next.led(n.term) implies {
        &&& next.campaigned(n.term, c)
        &&& next.vote_safe(n.id, n.term, next.campaigns[(n.term, c)])
    } by {
        if c != n.id {
            let m = choose|m: RequestVoteResponse| #[trigger]
                next.has_ballot(m) && m.from == n.id && m.term == n.term && m.voted_for == c && c
                    != 0;
            if !w.has_ballot(m) {
                lemma_new_out(w, e, Outgoing::To(MessageView::RequestVoteResponse(m)));
            }
            assert(w.voted(n.id, n.term, c));
        }
        assert forall|b: u64, k: int|
            b < n.term && #[trigger] next.acked(n.id, b, k) && next.leader_log(b)[k - 1].term
                == b implies next.holds(s.log, b, k) || next.spoiled(b, k, n.term as int) by {
            assert(w.acked(s.id, b, k));
            lemma_kept_stable(w, next, i, s.log, s.term, b, k, s.term);
        }
    }
    assert(w.moves_well(next, i));
    lemma_inv_kept(w, next, i);
}

/// A log that a leader may hold goes on with an entry of its own term.
pub proof fn lemma_push_log_ok(w: World, log: Seq<EntryView>, e: EntryView)
    requires
        forall|j: int|
            0 <= j < log.len() ==> {
                let t = (#[trigger] log[j]).term;
                &&& w.led(t)
                &&& w.holds(log, t, j + 1)
            },
        sorted(log),
        well_indexed(log),
        log.len() + 1 < u64::MAX,
        forall|j: int| 0 <= j < log.len() ==> 1 <= (#[trigger] log[j]).term <= e.term,
        e.term >= 1,
        e.index == log.len() + 1,
        w.led(e.term),
        w.leader_log(e.term) == log.push(e),
    ensures
        w.log_ok(log.push(e), e.term as int),
{
    let new = log.push(e);
    assert forall|j: int| 0 <= j < new.len() implies {
        let t = (#[trigger] new[j]).term;
        &&& w.led(t)
        &&& w.holds(new, t, j + 1)
    } by {
        if j < log.len() {
            let t = log[j].term;
            assert(w.led(t) && w.holds(log, t, j + 1));
            assert(new.take(j + 1) =~= log.take(j + 1));
        }
    }
}

/// A commit stays right as the log goes on.
pub proof fn lemma_commit_push(w: World, log: Seq<EntryView>, e: EntryView, term: u64, c: int)
    requires
        w.commit_ok(log, term, c),
    ensures
        w.commit_ok(log.push(e), term, c),
{
    if c != 0 {
        let (t, k) = choose|t: u64, k: int| #[trigger] w.commit_source(log, term, c, t, k);
        assert(log.push(e).take(c) =~= log.take(c));
        assert(w.commit_source(log.push(e), term, c, t, k));
    }
}

/// Nobody is elected twice in one term, nor after somebody else was.
pub proof fn lemma_not_led_before(w: World, i: int, votes: Seq<Vote>)
    requires
        w.inv(),
        0 <= i < w.nodes.len(),
        w.nodes[i].role is Candidate,
        votes.len() == w.nodes.len(),
        has_majority(votes, Vote::For),
        forall|j: int|
            0 <= j < votes.len() && #[trigger] votes[j] == Vote::For ==> w.voted(
                (j + 1) as u64,
                w.nodes[i].term,
                w.nodes[i].id,
            ),
    ensures
        !w.led(w.nodes[i].term),
{
    let s = w.nodes[i];
    if w.led(s.term) {
        assert(w.reign_ok(s.term));
        let r = w.reigns[s.term];
        let flags = vote_flags(votes, Vote::For);
        law_majorities_intersect(r.voters, flags);
        let j = choose|j: int| 0 <= j < r.voters.len() && r.voters[j] && #[trigger] flags[j];
        assert(votes[j] == Vote::For);
        assert(w.voted((j + 1) as u64, s.term, s.id));
        assert(w.voted((j + 1) as u64, s.term, r.leader));
        assert(r.leader == s.id);
        assert(w.nodes[i].id == i + 1);
    }
}

/// A candidate with more than half of the votes becomes the leader of its term.
pub proof fn lemma_elected(w: World, e: Event, timeout: u64)
    requires
        w.inv(),
        w.enabled(e),
        w.nodes[e.node()].role is Candidate,
        w.nodes[e.node()].log.len() + 1 < u64::MAX,
        e.effect(w.nodes[e.node()]) == w.nodes[e.node()].become_leader(timeout),
        e.ballots(w.nodes[e.node()]).len() == w.nodes.len(),
        has_majority(e.ballots(w.nodes[e.node()]), Vote::For),
        forall|j: int|
            0 <= j < e.ballots(w.nodes[e.node()]).len() && #[trigger] e.ballots(
                w.nodes[e.node()],
            )[j] == Vote::For ==> w.voted(
                (j + 1) as u64,
                w.nodes[e.node()].term,
                w.nodes[e.node()].id,
            ),
    ensures
        w.next(e).inv(),
        w.moves(w.next(e), e.node()),
{
    let i = e.node();
    let s = w.nodes[i];
    let f = e.effect(s);
    let n = f.node;
    let next = w.next(e);
    let votes = e.ballots(s);
    let t = s.term;
    assert(w.node_ok(s));
    lemma_not_led_before(w, i, votes);
    assert(w.candidate_ok(s, s.role->votes));
    assert(s.log == w.campaigns[(t, s.id)]);
    assert(w.log_ok(s.log, t - 1));
    let entry = EntryView { term: t, index: (s.log.len() + 1) as u64, data: Seq::empty() };
    assert(n.log == s.log.push(entry));
    assert(n.term == t && n.id == s.id && n.voted_for == s.id && n.committed == s.committed);
    assert(n.wf());
    assert forall|x: u64| #[trigger] w.led(x) implies shares(
        next.leader_log(x),
        w.leader_log(x),
        w.leader_log(x).len() as int,
    ) by {}
    assert(w.reigns_grow(next, n.id, n.term));
    lemma_appends_fair(n, n.cluster_size as nat);
    lemma_moves(w, e);
    assert(next.nodes[i] == n);
    assert(next.led(t) && next.leader_log(t) == n.log && next.reigns[t].leader == n.id);
    lemma_log_stable(w, next, i, s.log, t - 1);
    lemma_push_log_ok(next, s.log, entry);
    lemma_commit_stable(w, next, i, s.log, t, s.committed as int);
    lemma_commit_push(next, s.log, entry, t, s.committed as int);
    assert(next.progress_ok(n));
    assert(w.voted(s.id, t, s.id));
    lemma_voted_stable(w, next, i, s.id, t, s.id);
    assert(next.node_ok(n));
    assert(next.reign_ok(t)) by {
        let r = next.reigns[t];
        assert(r.log.take(s.log.len() as int) =~= s.log);
        assert(s.log.take(s.log.len() as int) =~= s.log);
        assert(next.majority(r.voters));
        assert forall|a: int| 0 <= a < r.voters.len() && #[trigger] r.voters[a] implies {
            &&& next.voted((a + 1) as u64, t, r.leader)
            &&& next.vote_safe((a + 1) as u64, t, r.start)
        } by {
            assert(votes[a] == Vote::For);
            assert(w.voted((a + 1) as u64, t, s.id));
            lemma_voted_stable(w, next, i, (a + 1) as u64, t, s.id);
            lemma_vote_safe_stable(w, next, i, (a + 1) as u64, t, s.id, s.log);
        }
    }
    assert forall|o: Outgoing| #[trigger]
        next.net.contains(o) && !w.net.contains(o) implies next.out_ok(o) by {
        lemma_new_out(w, e, o);
        let to = lemma_appends_content(n, n.cluster_size as nat, o);
        lemma_append_for_ok(next, n, to);
    }
    assert forall|x: u64, k: int| #[trigger] next.acked(n.id, x, k) implies n.term >= x && next.kept(
        n.log,
        n.term,
        x,
        k,
    ) by {
        if x == t {
            assert(next.holds(n.log, x, k));
        } else {
            lemma_new_acks(w, next, i, n.id, x, k);
            lemma_kept_stable(w, next, i, s.log, s.term, x, k, n.term);
            if next.holds(s.log, x, k) {
                assert(n.log.take(k) =~= s.log.take(k));
            }
        }
    }
    assert(w.moves_well(next, i));
    lemma_inv_kept(w, next, i);
}

/// A leader records a proposal in its log.
pub proof fn lemma_propose(w: World, e: Event, data: Seq<u8>)
    requires
        w.inv(),
        w.enabled(e),
        w.nodes[e.node()].role is Leader,
        w.nodes[e.node()].log.len() + 1 < u64::MAX,
        e.effect(w.nodes[e.node()]) == w.nodes[e.node()].propose(data) || e.effect(
            w.nodes[e.node()],
        ) == w.nodes[e.node()].submit(data),
    ensures
        w.next(e).inv(),
        w.moves(w.next(e), e.node()),
{
    let i = e.node();
    let s = w.nodes[i];
    let f = e.effect(s);
    let n = f.node;
    let next = w.next(e);
    let t = s.term;
    assert(w.node_ok(s));
    assert(w.reign_ok(t));
    let entry = EntryView { term: t, index: (s.log.len() + 1) as u64, data };
    assert(n.log == s.log.push(entry));
    assert(n.wf());
    assert(n.log.take(s.log.len() as int) =~= s.log);
    assert(s.log.take(s.log.len() as int) =~= s.log);
    assert forall|x: u64| #[trigger] w.led(x) implies shares(
        next.leader_log(x),
        w.leader_log(x),
        w.leader_log(x).len() as int,
    ) by {}
    assert(w.reigns_grow(next, n.id, n.term));
    lemma_appends_fair(n, n.cluster_size as nat);
    lemma_last_entry_fair(n, n.cluster_size as nat);
    lemma_moves(w, e);
    assert(next.nodes[i] == n);
    assert(next.led(t) && next.leader_log(t) == n.log && next.reigns[t].leader == n.id);
    lemma_log_stable(w, next, i, s.log, t as int);
    assert(t >= 1) by {
        let r = w.reigns[t];
        assert(r.log[r.start.len() as int].term == t);
    }
    lemma_push_log_ok(next, s.log, entry);
    lemma_commit_stable(w, next, i, s.log, t, s.committed as int);
    lemma_commit_push(next, s.log, entry, t, s.committed as int);
    assert(next.progress_ok(n)) by {
        assert forall|a: int| 0 <= a < n.role->progress.len() implies {
            let p = #[trigger] n.role->progress[a];
            &&& 1 <= p.next_index <= n.log.len() + 1
            &&& p.match_index == 0 || next.acked((a + 1) as u64, n.term, p.match_index as int)
        } by {
            let p = s.role->progress[a];
            if p.match_index != 0 {
                lemma_acked_stable(w, next, i, (a + 1) as u64, t, p.match_index as int);
            }
        }
    }
    lemma_voted_stable(w, next, i, s.id, t, s.id);
    assert(next.node_ok(n));
    assert(next.reign_ok(t)) by {
        let r = w.reigns[t];
        let k = r.start.len() as int;
        assert(n.log.take(k) =~= s.log.take(k));
        lemma_electors_stable(w, next, i, t);
        assert(w.nodes[r.leader - 1].id == r.leader);
        assert forall|j: int| k <= j < n.log.len() implies (#[trigger] n.log[j]).term == t by {
            if j < s.log.len() {
                assert(r.log[j].term == t);
            }
        }
    }
    assert forall|o: Outgoing| #[trigger]
        next.net.contains(o) && !w.net.contains(o) implies next.out_ok(o) by {
        lemma_new_out(w, e, o);
        if n.appends(n.cluster_size as nat).contains(o) {
            let to = lemma_appends_content(n, n.cluster_size as nat, o);
            lemma_append_for_ok(next, n, to);
        } else {
            let to = lemma_last_entry_content(n, n.cluster_size as nat, o);
            lemma_append_from_ok(next, n, n.last_index(), to);
        }
    }
    assert forall|x: u64, k: int| #[trigger] next.acked(n.id, x, k) implies n.term >= x && next.kept(
        n.log,
        n.term,
        x,
        k,
    ) by {
        if x == t {
            assert(next.holds(n.log, x, k));
        } else {
            lemma_new_acks(w, next, i, n.id, x, k);
            lemma_kept_stable(w, next, i, s.log, s.term, x, k, n.term);
            if next.holds(s.log, x, k) {
                assert(n.log.take(k) =~= s.log.take(k));
            }
        }
    }
    assert(w.moves_well(next, i));
    lemma_inv_kept(w, next, i);
}

} // verus!
