use vstd::prelude::*;

use crate::error::{Error, Result};
use crate::proto::{entries_view, Entry, EntryView};

verus! {

/// Each entry of the log stands at its own index: indices count from 1.
pub open spec fn well_indexed(log: Seq<EntryView>) -> bool {
    forall|i: int| 0 <= i < log.len() ==> (#[trigger] log[i]).index == i + 1
}

/// The term of the entry at `idx`. The log is taken to start with an entry
/// of index 0 and term 0.
pub open spec fn term_at(log: Seq<EntryView>, idx: u64) -> Option<u64> {
    if idx == 0 {
        Some(0)
    } else if idx <= log.len() {
        Some(log[idx - 1].term)
    } else {
        None
    }
}

/// The term of the last entry, 0 where there is none.
pub open spec fn last_term_of(log: Seq<EntryView>) -> u64 {
    if log.len() == 0 {
        0
    } else {
        log.last().term
    }
}

/// `entry` can be put into `log`: it follows the last entry or stands in the
/// place of an older one.
pub open spec fn fits(log: Seq<EntryView>, entry: EntryView) -> bool {
    1 <= entry.index <= log.len() + 1
}

/// `log` with `entry` put at its index. An entry of another term that stood
/// there is removed, and all that followed it.
pub open spec fn put(log: Seq<EntryView>, entry: EntryView) -> Seq<EntryView> {
    if entry.index <= log.len() && log[entry.index - 1].term == entry.term {
        log.update(entry.index - 1, entry)
    } else {
        log.take(entry.index - 1).push(entry)
    }
}

/// `log` with `entries` put in, one after the other, up to the first that does
/// not fit.
pub open spec fn put_all(log: Seq<EntryView>, entries: Seq<EntryView>) -> Seq<EntryView>
    decreases entries.len(),
{
    if entries.len() == 0 || !fits(log, entries[0]) {
        log
    } else {
        put_all(put(log, entries[0]), entries.drop_first())
    }
}

/// The index of the first entry that does not fit when `entries` are put into
/// `log` one after the other.
pub open spec fn first_misfit(log: Seq<EntryView>, entries: Seq<EntryView>) -> Option<u64>
    decreases entries.len(),
{
    if entries.len() == 0 {
        None
    } else if !fits(log, entries[0]) {
        Some(entries[0].index)
    } else {
        first_misfit(put(log, entries[0]), entries.drop_first())
    }
}

/// The entries of a log as mathematical values, the one with index 1 first.
pub type LogView = Seq<EntryView>;

/// The log that a node persists.
pub trait Storage {
    /// The entries of the log.
    spec fn log(&self) -> LogView;

    /// The index of the last entry replicated in `Storage`.
    fn last_index(&self) -> (r: u64)
        ensures
            r == self.log().len(),
            well_indexed(self.log()),
    ;

    /// The term of the last entry, 0 where there is none.
    fn last_term(&self) -> (r: u64)
        ensures
            r == last_term_of(self.log()),
    ;

    /// Returns the term of entry with index `idx`; index 0 has term 0.
    fn term(&self, idx: u64) -> (r: Result<u64>)
        ensures
            r == match term_at(self.log(), idx) {
                Some(term) => Ok::<u64, Error>(term),
                None => Err(Error::InvalidIdx(idx)),
            },
    ;

    /// Returns a slice of log entries in the range `[low, high)`.
    fn entries(&self, low: u64, high: u64) -> (r: Result<Vec<Entry>>)
        ensures
            r is Ok <==> 1 <= low <= high <= self.log().len() + 1,
            r matches Ok(v) ==> entries_view(v@) == self.log().subrange(low - 1, high - 1),
            r matches Err(e) ==> e == Error::InvalidRange(low, high),
    ;

    /// Appends all entries to the storage log. An entry that conflicts with
    /// one in the log replaces it and all that follow it.
    fn append(&mut self, entries: Vec<Entry>) -> (r: Result<()>)
        ensures
            final(self).log() == put_all(old(self).log(), entries_view(entries@)),
            r == match first_misfit(old(self).log(), entries_view(entries@)) {
                Some(idx) => Err::<(), Error>(Error::InvalidIdx(idx)),
                None => Ok(()),
            },
    ;
}

/// A `Vec` backed `Storage` implementation.
///
/// This implementation is meant for testing, and does not persist across process crashes.
///
/// Uses 1-based indexing consistent with Raft protocol:
/// - Index 0 represents "no entry" and returns Ok(0) for term()
/// - Index 1 is the first actual log entry (stored at vec[0])
#[derive(Debug)]
pub struct MemStorage {
    log: Vec<Entry>,
}

impl MemStorage {
    #[verifier::type_invariant]
    closed spec fn inv(self) -> bool {
        &&& well_indexed(entries_view(self.log@))
        &&& self.log@.len() <= u64::MAX
    }

    /// An empty log.
    pub fn new() -> (r: Self)
        ensures
            r.log() == Seq::<EntryView>::empty(),
    {
        let r = Self { log: Vec::new() };
        assert(r.log() =~= Seq::<EntryView>::empty());
        r
    }
}

/// Putting an entry where it fits keeps every entry at its own index.
pub proof fn lemma_put_keeps_index(log: Seq<EntryView>, entry: EntryView)
    requires
        well_indexed(log),
        fits(log, entry),
    ensures
        well_indexed(put(log, entry)),
        put(log, entry).len() <= log.len() + 1,
        put(log, entry).len() >= entry.index,
{
}

/// Putting entries one after the other keeps every entry at its own index and
/// makes the log longer by no more than their number.
pub proof fn lemma_put_all_bounds(log: Seq<EntryView>, entries: Seq<EntryView>)
    requires
        well_indexed(log),
    ensures
        well_indexed(put_all(log, entries)),
        put_all(log, entries).len() <= log.len() + entries.len(),
    decreases entries.len(),
{
    if entries.len() > 0 && fits(log, entries[0]) {
        lemma_put_keeps_index(log, entries[0]);
        lemma_put_all_bounds(put(log, entries[0]), entries.drop_first());
    }
}

/// Puts one entry that fits into a log held in a `Vec`.
fn put_entry(log: &mut Vec<Entry>, entry: Entry)
    requires
        well_indexed(entries_view(old(log)@)),
        fits(entries_view(old(log)@), entry@),
    ensures
        entries_view(final(log)@) == put(entries_view(old(log)@), entry@),
        well_indexed(entries_view(final(log)@)),
{
    let ghost before = entries_view(log@);
    assert(log@.len() == log.len());
    let idx: usize = (entry.index - 1) as usize;
    proof {
        lemma_put_keeps_index(before, entry@);
    }
    let ghost v = entry@;
    if idx < log.len() {
        if log[idx].term != entry.term {
            // Conflicting entry: truncate the log starting from this index
            log.truncate(idx);
            log.push(entry);
        } else {
            // Identical entry, just keep/overwrite it
            log[idx] = entry;
        }
    } else {
        log.push(entry);
    }
    assert(entries_view(log@) =~= put(before, v));
}

impl Storage for MemStorage {
    closed spec fn log(&self) -> Seq<EntryView> {
        entries_view(self.log@)
    }

    fn last_index(&self) -> u64 {
        proof {
            use_type_invariant(self);
        }
        self.log.len() as u64
    }

    fn last_term(&self) -> u64 {
        let n: usize = self.log.len();
        if n == 0 {
            0
        } else {
            self.log[n - 1].term
        }
    }

    fn term(&self, idx: u64) -> Result<u64> {
        // Index 0 is a special case representing "no entry"
        if idx == 0 {
            return Ok(0);
        }
        if idx <= self.log.len() as u64 {
            // Convert 1-based Raft index to 0-based Vec index
            Ok(self.log[(idx - 1) as usize].term)
        } else {
            Err(Error::InvalidIdx(idx))
        }
    }

    fn entries(&self, low: u64, high: u64) -> Result<Vec<Entry>> {
        proof {
            use_type_invariant(self);
        }
        // Raft range [low, high) -> Vec range [low-1, high-1)
        if low == 0 || high < low || high - 1 > self.log.len() as u64 {
            return Err(Error::InvalidRange(low, high));
        }
        let mut out: Vec<Entry> = Vec::new();
        let mut i: u64 = low - 1;
        while i < high - 1
            invariant
                1 <= low <= high <= self.log@.len() + 1,
                low - 1 <= i <= high - 1,
                out@.len() == i - (low - 1),
                forall|j: int|
                    0 <= j < out@.len() ==> (#[trigger] out@[j])@ == self.log@[low - 1 + j]@,
            decreases high - i,
        {
            assert(self.log@.len() == self.log.len());
            out.push(self.log[i as usize].clone());
            i = i + 1;
        }
        assert(entries_view(out@) =~= self.log().subrange(low - 1, high - 1));
        Ok(out)
    }

    fn append(&mut self, entries: Vec<Entry>) -> Result<()> {
        proof {
            use_type_invariant(&*self);
        }
        let ghost before = entries_view(self.log@);
        let ghost all = entries_view(entries@);
        let mut log: Vec<Entry> = Vec::new();
        std::mem::swap(&mut log, &mut self.log);
        let n: usize = entries.len();
        let mut i: usize = 0;
        let mut misfit: Option<u64> = None;
        assert(all.skip(0) =~= all);
        while i < n && misfit.is_none()
            invariant
                i <= n,
                n == entries@.len(),
                all == entries_view(entries@),
                well_indexed(entries_view(log@)),
                misfit is None ==> {
                    &&& put_all(entries_view(log@), all.skip(i as int)) == put_all(before, all)
                    &&& first_misfit(entries_view(log@), all.skip(i as int)) == first_misfit(
                        before,
                        all,
                    )
                },
                misfit is Some ==> {
                    &&& entries_view(log@) == put_all(before, all)
                    &&& first_misfit(before, all) == misfit
                },
            decreases n - i + (if misfit is None { 1int } else { 0int }),
        {
            let entry = entries[i].clone();
            assert(all.skip(i as int)[0] == entry@);
            assert(all.skip(i as int).drop_first() =~= all.skip(i + 1));
            if entry.index >= 1 && entry.index - 1 <= log.len() as u64 {
                put_entry(&mut log, entry);
                i = i + 1;
            } else {
                // A gap in the log: entries must be contiguous
                misfit = Some(entry.index);
            }
        }
        assert(log@.len() == log.len());
        self.log = log;
        match misfit {
            Some(idx) => Err(Error::InvalidIdx(idx)),
            None => Ok(()),
        }
    }
}

/// A write is read back: after `entry` was put into a log it stands at its
/// index, and all entries before it stand where they stood.
pub proof fn law_read_after_put(log: Seq<EntryView>, entry: EntryView)
    requires
        well_indexed(log),
        fits(log, entry),
    ensures
        put(log, entry)[entry.index - 1] == entry,
        forall|i: int| 0 <= i < entry.index - 1 ==> put(log, entry)[i] == log[i],
{
}

/// An entry of another term removes the one it conflicts with and every entry
/// after it.
pub proof fn law_conflict_truncates(log: Seq<EntryView>, entry: EntryView)
    requires
        fits(log, entry),
        entry.index <= log.len(),
        log[entry.index - 1].term != entry.term,
    ensures
        put(log, entry).len() == entry.index,
{
}

/// The terms that a log tells are those of its entries: of each one its own, of
/// the place before the first 0, and of a place behind the last none.
pub proof fn law_terms_are_those_of_the_entries(log: Seq<EntryView>, idx: u64)
    ensures
        term_at(log, 0) == Some(0u64),
        1 <= idx <= log.len() ==> term_at(log, idx) == Some(log[idx - 1].term),
        idx > log.len() ==> term_at(log, idx) is None,
        log.len() == 0 ==> last_term_of(log) == 0,
        0 < log.len() <= u64::MAX ==> term_at(log, log.len() as u64) == Some(last_term_of(log)),
{
}

/// An entry that follows the last one is added behind it, and one of the same
/// term as the entry in its place leaves all others where they are.
pub proof fn law_fitting_entries_keep_the_rest(log: Seq<EntryView>, entry: EntryView)
    requires
        fits(log, entry),
    ensures
        entry.index == log.len() + 1 ==> put(log, entry) == log.push(entry),
        entry.index <= log.len() && log[entry.index - 1].term == entry.term ==> {
            &&& put(log, entry).len() == log.len()
            &&& forall|i: int|
                0 <= i < log.len() && i != entry.index - 1 ==> #[trigger] put(log, entry)[i]
                    == log[i]
        },
{
    assert(log.take(log.len() as int) =~= log);
}

/// An entry that leaves a gap, or names no place, is refused by its index, and
/// what precedes it stays.
pub proof fn law_gaps_are_refused(log: Seq<EntryView>, entry: EntryView, more: Seq<EntryView>)
    ensures
        entry.index == 0 || entry.index > log.len() + 1 ==> {
            &&& first_misfit(log, seq![entry] + more) == Some(entry.index)
            &&& put_all(log, seq![entry] + more) == log
        },
        first_misfit(log, Seq::<EntryView>::empty()) is None,
        put_all(log, Seq::<EntryView>::empty()) == log,
{
    assert((seq![entry] + more)[0] == entry);
}

/// Entries are put in one after the other: what is put in after others is put
/// into the log that these left, and what does not fit stops all that follows.
pub proof fn law_entries_are_put_in_order(
    log: Seq<EntryView>,
    first: Seq<EntryView>,
    more: Seq<EntryView>,
)
    ensures
        first_misfit(log, first) is None ==> {
            &&& put_all(log, first + more) == put_all(put_all(log, first), more)
            &&& first_misfit(log, first + more) == first_misfit(put_all(log, first), more)
        },
        first_misfit(log, first) is Some ==> {
            &&& put_all(log, first + more) == put_all(log, first)
            &&& first_misfit(log, first + more) == first_misfit(log, first)
        },
    decreases first.len(),
{
    if first.len() == 0 {
        assert(first + more =~= more);
    } else {
        assert((first + more)[0] == first[0]);
        assert((first + more).drop_first() =~= first.drop_first() + more);
        if fits(log, first[0]) {
            law_entries_are_put_in_order(put(log, first[0]), first.drop_first(), more);
        }
    }
}

} // verus!
