use vstd::prelude::*;

verus! {

/// Set of ID's votes
///
/// Uses a `Vec` instead of `HashSet` since all ID's must be sequential and in this case `Vec` is
/// generally faster
#[derive(Debug, Clone, PartialEq)]
pub struct Quorum {
    voters: Vec<Vote>,
}

/// Represents a pending or completed vote.
#[derive(Debug, Clone, Copy, PartialEq, Eq, Structural)]
pub enum Vote {
    Pending,
    For,
    Against,
}

/// How an election stands.
#[derive(Debug, Clone, Copy, PartialEq, Eq, Structural)]
pub enum ElectionState {
    Won,
    Lost,
    Pending,
}

/// How many of `flags` are set.
pub open spec fn count_set(flags: Seq<bool>) -> nat
    decreases flags.len(),
{
    if flags.len() == 0 {
        0
    } else {
        count_set(flags.drop_last()) + if flags.last() {
            1nat
        } else {
            0nat
        }
    }
}

/// Which of `votes` are `vote`.
pub open spec fn vote_flags(votes: Seq<Vote>, vote: Vote) -> Seq<bool> {
    Seq::new(votes.len(), |i: int| votes[i] == vote)
}

/// How many of `votes` are `vote`.
pub open spec fn count_votes(votes: Seq<Vote>, vote: Vote) -> nat {
    count_set(vote_flags(votes, vote))
}

/// More than half of `votes` are `vote`.
pub open spec fn has_majority(votes: Seq<Vote>, vote: Vote) -> bool {
    count_votes(votes, vote) > votes.len() / 2
}

/// How an election with these votes stands.
pub open spec fn election_state(votes: Seq<Vote>) -> ElectionState {
    if has_majority(votes, Vote::For) {
        ElectionState::Won
    } else if has_majority(votes, Vote::Against) {
        ElectionState::Lost
    } else {
        ElectionState::Pending
    }
}

/// The votes as an election starts: the candidate's own, and none other.
pub open spec fn first_votes(cluster_size: u64, id: u64) -> Seq<Vote> {
    Seq::new(cluster_size as nat, |i: int| Vote::Pending).update(id - 1, Vote::For)
}

impl View for Quorum {
    type V = Seq<Vote>;

    /// The vote of node `i + 1` at position `i`.
    closed spec fn view(&self) -> Seq<Vote> {
        self.voters@
    }
}

impl Quorum {
    /// The quorum of a cluster of `cluster_size` nodes in which `id` has voted
    /// for itself and nobody else has voted.
    pub fn new(cluster_size: u64, id: u64) -> (r: Quorum)
        requires
            1 <= id <= cluster_size <= usize::MAX,
        ensures
            r@ == first_votes(cluster_size, id),
    {
        let mut quorum = Quorum { voters: vec![Vote::Pending; cluster_size as usize] };
        assert(quorum.voters@ =~= Seq::new(cluster_size as nat, |i: int| Vote::Pending));
        let _ = quorum.set(id, Vote::For);
        quorum
    }

    /// How many votes there are, cast or pending.
    pub fn len(&self) -> (r: usize)
        ensures
            r == self@.len(),
    {
        self.voters.len()
    }

    fn count(&self, vote: Vote) -> (r: usize)
        ensures
            r == count_votes(self@, vote),
            r <= self@.len(),
    {
        let mut n: usize = 0;
        let mut i: usize = 0;
        let ghost flags = vote_flags(self.voters@, vote);
        while i < self.voters.len()
            invariant
                i <= self.voters.len(),
                n <= i,
                flags == vote_flags(self.voters@, vote),
                n == count_set(flags.take(i as int)),
            decreases self.voters.len() - i,
        {
            assert(flags.take(i + 1).drop_last() =~= flags.take(i as int));
            if self.voters[i] == vote {
                n = n + 1;
            }
            i = i + 1;
        }
        assert(flags.take(i as int) =~= flags);
        n
    }

    /// How many votes were cast in favour.
    pub fn votes_for(&self) -> (r: usize)
        ensures
            r == count_votes(self@, Vote::For),
    {
        self.count(Vote::For)
    }

    /// How many votes were cast against.
    pub fn votes_against(&self) -> (r: usize)
        ensures
            r == count_votes(self@, Vote::Against),
    {
        self.count(Vote::Against)
    }

    /// Whether more than half of all votes were cast in favour.
    pub fn has_majority_for(&self) -> (r: bool)
        ensures
            r <==> has_majority(self@, Vote::For),
    {
        self.votes_for() > self.voters.len() / 2
    }

    /// Whether more than half of all votes were cast against.
    pub fn has_majority_against(&self) -> (r: bool)
        ensures
            r <==> has_majority(self@, Vote::Against),
    {
        self.votes_against() > self.voters.len() / 2
    }

    /// Records the vote of node `id` and says how the election stands with it.
    pub fn set(&mut self, id: u64, vote: Vote) -> (r: ElectionState)
        requires
            1 <= id <= old(self)@.len(),
        ensures
            final(self)@ == old(self)@.update(id - 1, vote),
            r == election_state(final(self)@),
    {
        assert(self.voters@.len() == self.voters.len());
        let index: usize = (id - 1) as usize;
        self.voters[index] = vote;
        if self.has_majority_for() {
            ElectionState::Won
        } else if self.has_majority_against() {
            ElectionState::Lost
        } else {
            ElectionState::Pending
        }
    }
}

proof fn lemma_counts_overlap(a: Seq<bool>, b: Seq<bool>)
    requires
        a.len() == b.len(),
        count_set(a) + count_set(b) > a.len(),
    ensures
        exists|i: int| 0 <= i < a.len() && a[i] && #[trigger] b[i],
    decreases a.len(),
{
    if a.last() && b.last() {
        assert(a[a.len() - 1] && b[a.len() - 1]);
    } else {
        lemma_counts_overlap(a.drop_last(), b.drop_last());
        let i = choose|i: int|
            0 <= i < a.drop_last().len() && a.drop_last()[i] && #[trigger] b.drop_last()[i];
        assert(a[i] && b[i]);
    }
}

/// Two majorities of one cluster share a node.
pub proof fn law_majorities_intersect(a: Seq<bool>, b: Seq<bool>)
    requires
        a.len() == b.len(),
        count_set(a) > a.len() / 2,
        count_set(b) > b.len() / 2,
    ensures
        exists|i: int| 0 <= i < a.len() && a[i] && #[trigger] b[i],
{
    lemma_counts_overlap(a, b);
}

/// An election cannot be both won and lost.
pub proof fn law_election_has_one_outcome(votes: Seq<Vote>)
    ensures
        !(has_majority(votes, Vote::For) && has_majority(votes, Vote::Against)),
{
    let a = vote_flags(votes, Vote::For);
    let b = vote_flags(votes, Vote::Against);
    if has_majority(votes, Vote::For) && has_majority(votes, Vote::Against) {
        law_majorities_intersect(a, b);
    }
}

/// The places at which `flags` are set.
pub open spec fn places_set(flags: Seq<bool>) -> Set<int> {
    Set::new(|i: int| 0 <= i < flags.len() && flags[i])
}

/// To count what is set is to count the places at which something is set.
pub proof fn law_count_is_the_number_of_places(flags: Seq<bool>)
    ensures
        places_set(flags).finite(),
        count_set(flags) == places_set(flags).len(),
    decreases flags.len(),
{
    if flags.len() == 0 {
        assert(places_set(flags) =~= Set::<int>::empty());
    } else {
        let fewer = flags.drop_last();
        law_count_is_the_number_of_places(fewer);
        if flags.last() {
            assert(places_set(flags) =~= places_set(fewer).insert(flags.len() - 1));
            assert(!places_set(fewer).contains(flags.len() - 1));
        } else {
            assert(places_set(flags) =~= places_set(fewer));
        }
    }
}

/// The voters who gave `vote`.
pub open spec fn voters_of(votes: Seq<Vote>, vote: Vote) -> Set<int> {
    Set::new(|i: int| 0 <= i < votes.len() && votes[i] == vote)
}

/// An election is won once more than half of all nodes have voted for the
/// candidate, lost once more than half have voted against, and open until
/// then, whoever is still to vote.
pub proof fn law_more_than_half_decides(votes: Seq<Vote>)
    ensures
        election_state(votes) is Won <==> 2 * voters_of(votes, Vote::For).len() > votes.len(),
        election_state(votes) is Lost <==> 2 * voters_of(votes, Vote::Against).len() > votes.len(),
        has_majority(votes, Vote::For) <==> 2 * voters_of(votes, Vote::For).len() > votes.len(),
        voters_of(votes, Vote::For).finite(),
        voters_of(votes, Vote::Against).finite(),
{
    assert(voters_of(votes, Vote::For) =~= places_set(vote_flags(votes, Vote::For)));
    assert(voters_of(votes, Vote::Against) =~= places_set(vote_flags(votes, Vote::Against)));
    law_count_is_the_number_of_places(vote_flags(votes, Vote::For));
    law_count_is_the_number_of_places(vote_flags(votes, Vote::Against));
    law_election_has_one_outcome(votes);
}

} // verus!
