use rafty::config::InitialConfig;
use rafty::error::Error;
use rafty::node_id::{NodeId, ValidNodeId, INVALID_ID};
use rafty::nonzero::NonZeroU64;
use rafty::progress::FollowerProgress;
use rafty::quorum::{ElectionState, Quorum, Vote};

#[test]
fn node_ids_count_from_one() {
    assert!(ValidNodeId::new(0).is_none());
    let id = ValidNodeId::new(3).unwrap();
    assert_eq!(id.get(), 3);
    assert_eq!(id.to_index(), 2);
    assert_eq!(ValidNodeId::from_index(2), id);
    assert_eq!(u64::from(id), 3);
}

#[test]
fn node_id_zero_is_invalid() {
    assert_eq!(NodeId::from(0), NodeId(None));
    assert_eq!(u64::from(NodeId::from(INVALID_ID)), 0);
    assert_eq!(u64::from(NodeId::from(9)), 9);
    assert_eq!(ValidNodeId::try_from(NodeId::from(0)), Err(Error::InvalidNodeId));
    assert_eq!(
        ValidNodeId::try_from(NodeId::from(4)),
        Ok(ValidNodeId::new(4).unwrap())
    );
    assert_eq!(NodeId::from(4).text(), "[4]");
    assert_eq!(NodeId::from(0).text(), "invalid node id");
}

#[test]
fn errors_tell_what_is_wrong() {
    assert_eq!(Error::InvalidIdx(12).message(), "invalid idx: 12");
    assert_eq!(Error::InvalidRange(1, 10).message(), "invalid range: [1, 10)");
    assert_eq!(Error::InvalidNodeId.message(), "invalid node id");
}

#[test]
fn nonzero_refuses_zero() {
    assert!(NonZeroU64::new(0).is_none());
    assert_eq!(NonZeroU64::new(u64::MAX).unwrap().get(), u64::MAX);
}

#[test]
fn config_for_another_node_keeps_the_rest() {
    let config = InitialConfig {
        id: ValidNodeId::new(1).unwrap(),
        cluster_size: 3,
        min_ticks_before_election: NonZeroU64::new(10).unwrap(),
        max_ticks_before_election: NonZeroU64::new(20).unwrap(),
        ticks_between_heartbeats: NonZeroU64::new(2).unwrap(),
        last_applied_idx: None,
    };
    let other = config.with_id(ValidNodeId::new(3).unwrap());
    assert_eq!(other.id.get(), 3);
    assert_eq!(other.cluster_size, 3);
    assert_eq!(other.ticks_between_heartbeats.get(), 2);
    assert!(other.is_wf());
    assert!(!config.with_id(ValidNodeId::new(4).unwrap()).is_wf());
}

#[test]
fn progress_never_goes_below_the_first_entry() {
    let mut p = FollowerProgress::new(1);
    assert_eq!((p.next_index, p.match_index, p.consecutive_failures), (2, 0, 0));
    p.decrement_next_index();
    p.decrement_next_index();
    p.decrement_next_index();
    assert_eq!((p.next_index, p.match_index, p.consecutive_failures), (1, 0, 3));
    p.update_on_success(7);
    assert_eq!((p.next_index, p.match_index, p.consecutive_failures), (8, 7, 0));
}

#[test]
fn quorum_needs_more_than_half() {
    let mut q = Quorum::new(4, 1);
    assert_eq!(q.votes_for(), 1);
    assert_eq!(q.set(2, Vote::For), ElectionState::Pending);
    assert!(!q.has_majority_for());
    assert_eq!(q.set(3, Vote::For), ElectionState::Won);
    assert!(q.has_majority_for());
}

#[test]
fn quorum_can_be_lost() {
    let mut q = Quorum::new(3, 2);
    assert_eq!(q.set(1, Vote::Against), ElectionState::Pending);
    assert_eq!(q.set(3, Vote::Against), ElectionState::Lost);
    assert_eq!(q.votes_against(), 2);
    assert!(q.has_majority_against());
    assert!(!q.has_majority_for());
}

#[test]
fn quorum_counts_the_last_word_of_a_voter() {
    let mut q = Quorum::new(3, 1);
    assert_eq!(q.set(2, Vote::Against), ElectionState::Pending);
    assert_eq!(q.set(2, Vote::For), ElectionState::Won);
    assert_eq!(q.votes_against(), 0);
}
