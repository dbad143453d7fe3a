use rafty::error::Error;
use rafty::log::RaftLog;
use rafty::proto::Entry;
use rafty::storage::{MemStorage, Storage};

fn entry(term: u64, index: u64, data: u8) -> Entry {
    Entry { term, index, data: vec![data] }
}

fn terms(store: &MemStorage) -> Vec<u64> {
    let last = store.last_index();
    store.entries(1, last + 1).unwrap().iter().map(|e| e.term).collect()
}

#[test]
fn empty_log_has_a_term_before_its_first_entry() {
    let store = MemStorage::new();
    assert_eq!(store.last_index(), 0);
    assert_eq!(store.last_term(), 0);
    assert_eq!(store.term(0), Ok(0));
    assert_eq!(store.term(1), Err(Error::InvalidIdx(1)));
    assert_eq!(store.entries(1, 1).unwrap().len(), 0);
}

#[test]
fn what_is_appended_is_read_back() {
    let mut store = MemStorage::new();
    store.append(vec![entry(1, 1, 10), entry(2, 2, 20)]).unwrap();
    assert_eq!(store.last_index(), 2);
    assert_eq!(store.last_term(), 2);
    assert_eq!(store.term(1), Ok(1));
    assert_eq!(store.entries(2, 3).unwrap(), vec![entry(2, 2, 20)]);
}

#[test]
fn ranges_outside_the_log_are_refused() {
    let mut store = MemStorage::new();
    store.append(vec![entry(1, 1, 1), entry(1, 2, 2)]).unwrap();
    assert_eq!(store.entries(0, 1), Err(Error::InvalidRange(0, 1)));
    assert_eq!(store.entries(1, 4), Err(Error::InvalidRange(1, 4)));
    assert_eq!(store.entries(2, 1), Err(Error::InvalidRange(2, 1)));
    assert_eq!(store.entries(3, 3).unwrap().len(), 0);
    assert_eq!(store.entries(1, 3).unwrap().len(), 2);
}

#[test]
fn gaps_are_refused_and_what_fits_before_them_is_kept() {
    let mut store = MemStorage::new();
    let result = store.append(vec![entry(1, 1, 1), entry(1, 3, 3), entry(1, 2, 2)]);
    assert_eq!(result, Err(Error::InvalidIdx(3)));
    assert_eq!(store.last_index(), 1);
    assert_eq!(store.append(vec![entry(1, 0, 0)]), Err(Error::InvalidIdx(0)));
}

#[test]
fn a_conflict_removes_all_that_follows() {
    let mut store = MemStorage::new();
    store.append(vec![entry(1, 1, 1), entry(1, 2, 2), entry(1, 3, 3)]).unwrap();
    store.append(vec![entry(2, 2, 9)]).unwrap();
    assert_eq!(terms(&store), vec![1, 2]);
    assert_eq!(store.entries(2, 3).unwrap()[0].data, vec![9]);
}

#[test]
fn an_entry_of_the_same_term_removes_nothing() {
    let mut store = MemStorage::new();
    store.append(vec![entry(1, 1, 1), entry(1, 2, 2), entry(2, 3, 3)]).unwrap();
    store.append(vec![entry(1, 2, 2)]).unwrap();
    assert_eq!(terms(&store), vec![1, 1, 2]);
}

#[test]
fn a_new_raft_log_has_nothing_committed() {
    let log = RaftLog::from_store(MemStorage::new());
    assert_eq!((log.committed, log.persisted, log.applied), (0, 0, 0));
}
