//! Logs that agree: what the entries of two logs tell of each other, and why a
//! leader has all that was safe before it.
use vstd::prelude::*;

use crate::consistency::shares;
use crate::proto::EntryView;
use crate::quorum::law_majorities_intersect;
use crate::storage::{first_misfit, fits, put, put_all, well_indexed};
use crate::world::World;

verus! {

/// Entries of one term at one place are the same entry.
pub open spec fn matching(a: Seq<EntryView>, b: Seq<EntryView>) -> bool {
    forall|j: int|
        0 <= j < a.len() && j < b.len() && (#[trigger] a[j]).term == (#[trigger] b[j]).term
            ==> a[j] == b[j]
}

/// What comes of a log into which the entries of `m` from `p` to `p + n` are
/// put, where it holds all that precedes them: it stays as it is if it holds
/// them already, and else is cut off behind them.
pub proof fn lemma_merge(l: Seq<EntryView>, m: Seq<EntryView>, p: int, n: int)
    requires
        0 <= p <= l.len(),
        0 <= n,
        p + n <= m.len(),
        m.len() < u64::MAX,
        l.take(p) == m.take(p),
        well_indexed(m),
        matching(l, m),
    ensures
        first_misfit(l, m.subrange(p, p + n)) is None,
        shares(l, m, p + n) ==> put_all(l, m.subrange(p, p + n)) == l,
        !shares(l, m, p + n) ==> put_all(l, m.subrange(p, p + n)) == m.take(p + n),
    decreases n,
{
    let entries = m.subrange(p, p + n);
    if n > 0 {
        let e = m[p];
        assert(entries[0] == e);
        assert(e.index == p + 1);
        assert(entries.drop_first() =~= m.subrange(p + 1, p + n));
        assert(fits(l, e));
        if p < l.len() && l[p].term == e.term {
            assert(l[p] == e);
            assert(put(l, e) =~= l);
            assert(l.take(p + 1) =~= l.take(p).push(l[p]));
            assert(m.take(p + 1) =~= m.take(p).push(m[p]));
            lemma_merge(l, m, p + 1, n - 1);
        } else {
            let cut = m.take(p + 1);
            assert(l.take(p).push(e) =~= cut);
            assert(put(l, e) == cut);
            assert(cut.take(p + 1) =~= m.take(p + 1));
            assert(matching(cut, m));
            lemma_merge(cut, m, p + 1, n - 1);
            if shares(cut, m, p + n) {
                assert(n == 1);
            }
            if shares(l, m, p + n) {
                assert(l.take(p + n)[p] == m.take(p + n)[p]);
                assert(false);
            }
        }
    } else {
        assert(entries =~= Seq::<EntryView>::empty());
    }
}

/// Sharing `k` entries, two logs share any fewer.
pub proof fn lemma_shares_fewer(a: Seq<EntryView>, b: Seq<EntryView>, k: int, j: int)
    requires
        shares(a, b, k),
        0 <= j <= k,
    ensures
        shares(a, b, j),
{
    assert(a.take(j) =~= a.take(k).take(j));
    assert(b.take(j) =~= b.take(k).take(j));
}

/// In logs that leaders back, an entry tells all that precedes it.
pub proof fn lemma_backed_agree(w: World, a: Seq<EntryView>, b: Seq<EntryView>, j: int)
    requires
        w.backed(a),
        w.backed(b),
        0 <= j < a.len(),
        j < b.len(),
        a[j].term == b[j].term,
    ensures
        shares(a, b, j + 1),
        a[j] == b[j],
{
    let t = a[j].term;
    assert(w.holds(a, t, j + 1));
    assert(w.holds(b, b[j].term, j + 1));
    assert(a.take(j + 1)[j] == b.take(j + 1)[j]);
}

pub proof fn lemma_backed_matching(w: World, a: Seq<EntryView>, b: Seq<EntryView>)
    requires
        w.backed(a),
        w.backed(b),
    ensures
        matching(a, b),
{
    assert forall|j: int|
        0 <= j < a.len() && j < b.len() && (#[trigger] a[j]).term == (#[trigger] b[j]).term implies
        a[j] == b[j] by {
        lemma_backed_agree(w, a, b, j);
    }
}

/// The log of a leader goes on from the one it was elected with.
pub proof fn lemma_start_in_log(w: World, t: u64, k: int, b: u64)
    requires
        w.inv(),
        w.led(t),
        w.led(b),
        w.holds(w.start_log(b), t, k),
    ensures
        w.holds(w.leader_log(b), t, k),
{
    assert(w.reign_ok(b));
    let r = w.reigns[b];
    lemma_shares_fewer(r.start, r.log, r.start.len() as int, k);
}

/// What was safe in term `t` is in the log of every later leader as it was elected.
pub proof fn lemma_elected_with_chosen(w: World, t: u64, k: int, b: u64)
    requires
        w.inv(),
        w.chosen(t, k),
        w.led(b),
        t < b,
    ensures
        w.holds(w.start_log(b), t, k),
    decreases b,
{
    assert(w.reign_ok(b));
    let q = choose|q: Seq<bool>| #[trigger] w.majority(q) && w.all_acked(q, t, k);
    let voters = w.reigns[b].voters;
    law_majorities_intersect(voters, q);
    let i = choose|i: int| 0 <= i < voters.len() && voters[i] && #[trigger] q[i];
    let v = (i + 1) as u64;
    assert(w.acked(v, t, k));
    assert(w.vote_safe(v, b, w.start_log(b)));
    if !w.holds(w.start_log(b), t, k) {
        assert(w.spoiled(t, k, b as int));
        let x = choose|x: u64|
            #![trigger w.led(x)]
            w.led(x) && t < x < b && !w.holds(w.start_log(x), t, k);
        lemma_elected_with_chosen(w, t, k, x);
    }
}

/// What was safe in term `t` is in the log of every leader from then on.
pub proof fn lemma_leader_has_chosen(w: World, t: u64, k: int, b: u64)
    requires
        w.inv(),
        w.chosen(t, k),
        w.led(b),
        t <= b,
    ensures
        w.holds(w.leader_log(b), t, k),
{
    if t < b {
        lemma_elected_with_chosen(w, t, k, b);
        lemma_start_in_log(w, t, k, b);
    }
}

} // verus!
