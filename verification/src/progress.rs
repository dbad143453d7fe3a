use vstd::prelude::*;

verus! {

/// Tracks a follower's log replication progress from the leader's perspective.
#[derive(Debug, Clone, Copy, PartialEq, Eq, Structural)]
pub struct FollowerProgress {
    /// Index of the next log entry to send to the follower (starts at leader's last index + 1).
    pub next_index: u64,
    /// Index of the highest log entry known to be replicated to the follower.
    pub match_index: u64,
    /// Number of consecutive replication failures (for exponential backoff).
    pub consecutive_failures: u64,
}

impl FollowerProgress {
    /// The progress of a follower of which nothing is known yet.
    pub open spec fn fresh(leader_last_index: u64) -> FollowerProgress {
        FollowerProgress {
            next_index: (leader_last_index + 1) as u64,
            match_index: 0,
            consecutive_failures: 0,
        }
    }

    /// The progress after one more failed replication.
    pub open spec fn failed(self) -> FollowerProgress {
        FollowerProgress {
            next_index: if self.next_index > 1 {
                (self.next_index - 1) as u64
            } else {
                self.next_index
            },
            match_index: self.match_index,
            consecutive_failures: (self.consecutive_failures + 1) as u64,
        }
    }

    /// The progress of a follower known to hold the entries up to `match_index`.
    pub open spec fn matched(match_index: u64) -> FollowerProgress {
        FollowerProgress {
            next_index: (match_index + 1) as u64,
            match_index,
            consecutive_failures: 0,
        }
    }

    /// Initialize progress for a new follower, starting just after the leader's last log entry.
    pub fn new(leader_last_index: u64) -> (r: Self)
        requires
            leader_last_index < u64::MAX,
        ensures
            r == Self::fresh(leader_last_index),
    {
        Self { next_index: leader_last_index + 1, match_index: 0, consecutive_failures: 0 }
    }

    /// Decrement next_index for retry after a failed replication (with minimum bound of 1).
    pub fn decrement_next_index(&mut self)
        requires
            old(self).consecutive_failures < u64::MAX,
        ensures
            *final(self) == old(self).failed(),
    {
        if self.next_index > 1 {
            self.next_index = self.next_index - 1;
        }
        self.consecutive_failures = self.consecutive_failures + 1;
    }

    /// Reset after successful replication, updating match_index and resetting failure count.
    pub fn update_on_success(&mut self, match_index: u64)
        requires
            match_index < u64::MAX,
        ensures
            *final(self) == Self::matched(match_index),
    {
        self.match_index = match_index;
        self.next_index = match_index + 1;
        self.consecutive_failures = 0;
    }
}

/// What is known of a follower: at first nothing, with the entry behind the
/// leader's last as the next; once it holds entries, the one behind them; and
/// with each failure one entry further back, but never before the first.
pub proof fn law_progress(last: u64, matched: u64, p: FollowerProgress)
    requires
        last < u64::MAX,
        matched < u64::MAX,
        p.consecutive_failures < u64::MAX,
    ensures
        FollowerProgress::fresh(last).next_index == last + 1,
        FollowerProgress::fresh(last).match_index == 0,
        FollowerProgress::fresh(last).consecutive_failures == 0,
        FollowerProgress::matched(matched).match_index == matched,
        FollowerProgress::matched(matched).next_index == matched + 1,
        FollowerProgress::matched(matched).consecutive_failures == 0,
        p.failed().match_index == p.match_index,
        p.failed().consecutive_failures == p.consecutive_failures + 1,
        p.next_index > 1 ==> p.failed().next_index == p.next_index - 1,
        p.next_index <= 1 ==> p.failed().next_index == p.next_index,
{
}

} // verus!
