use vstd::prelude::*;
use vstd::std_specs::iter::IteratorSpec;

use crate::node_id::ValidNodeId;

verus! {

/// A map-like data structure optimized for small clusters with sequential node IDs.
///
/// Since cluster sizes are typically small (< 100 nodes) and node IDs are sequential,
/// this uses a `Vec<T>` as the backing store instead of a `HashMap`.
///
/// # Indexing
/// - Node IDs are 1-indexed (0 is invalid)
/// - node 1 has the first element (index 0 in the underlying Vec)
/// - the element of `self_id` is a sentinel value and should not be used for actual data
///
/// # Type Parameters
/// - `T`: The type of values stored in the map
#[derive(Debug, Clone, PartialEq)]
pub struct NodeMap<T> {
    /// The underlying storage. Index `i` stores the value for node `i + 1`.
    /// The sentinel value at index `self_id - 1` is unused.
    data: Vec<T>,
    /// The node ID of the owner of this NodeMap (1-indexed)
    self_id: ValidNodeId,
}

impl<T> View for NodeMap<T> {
    type V = Seq<T>;

    /// The value of node `i + 1` at position `i`.
    closed spec fn view(&self) -> Seq<T> {
        self.data@
    }
}

/// The pairs of id and value of every node but `owner`, in the order of the ids.
pub open spec fn others<T>(values: Seq<T>, owner: u64) -> Seq<(u64, T)>
    decreases values.len(),
{
    if values.len() == 0 {
        Seq::empty()
    } else if values.len() == owner {
        others(values.drop_last(), owner)
    } else {
        others(values.drop_last(), owner).push((values.len() as u64, values.last()))
    }
}

/// The values of `data` paired with the ids from `first + 1` on.
fn pairs_mut<T>(data: &mut [T], first: usize) -> (r: Vec<(ValidNodeId, &mut T)>)
    requires
        first + old(data)@.len() <= usize::MAX,
    ensures
        r@.len() == old(data)@.len(),
        final(data)@.len() == old(data)@.len(),
        forall|i: int|
            0 <= i < r@.len() ==> {
                &&& (#[trigger] r@[i]).0@ == first + i + 1
                &&& *r@[i].1 == old(data)@[i]
                &&& final(data)@[i] == *final(r@[i].1)
            },
    decreases old(data)@.len(),
{
    if data.len() == 0 {
        return Vec::new();
    }
    let (head, tail) = data.split_at_mut(1);
    let mut out = pairs_mut(tail, first + 1);
    out.insert(0, (ValidNodeId::from_index(first), &mut head[0]));
    out
}

/// Iterator over references to NodeMap entries
pub struct NodeMapIter<'a, T> {
    /// The entries that are still to come.
    items: Vec<(ValidNodeId, &'a T)>,
}

impl<'a, T> View for NodeMapIter<'a, T> {
    type V = Seq<(ValidNodeId, &'a T)>;

    /// The entries that are still to come.
    closed spec fn view(&self) -> Seq<(ValidNodeId, &'a T)> {
        self.items@
    }
}

impl<'a, T> Iterator for NodeMapIter<'a, T> {
    type Item = (ValidNodeId, &'a T);

    fn next(&mut self) -> (r: Option<Self::Item>)
        ensures
            old(self)@.len() == 0 ==> r is None && final(self)@ == old(self)@,
            old(self)@.len() > 0 ==> r == Some(old(self)@[0]) && final(self)@
                == old(self)@.drop_first(),
    {
        if self.items.len() == 0 {
            return None;
        }
        let ghost before = self.items@;
        let item = self.items.remove(0);
        assert(self.items@ =~= before.drop_first());
        Some(item)
    }
}

impl<'a, T> vstd::std_specs::iter::IteratorSpecImpl for NodeMapIter<'a, T> {
    open spec fn obeys_prophetic_iter_laws(&self) -> bool {
        true
    }

    open spec fn remaining(&self) -> Seq<Self::Item> {
        self@
    }

    open spec fn will_return_none(&self) -> bool {
        true
    }

    open spec fn decrease(&self) -> Option<nat> {
        Some(self@.len())
    }

    open spec fn initial_value_relation(&self, init: &Self) -> bool {
        self@ == init@
    }

    open spec fn peek(&self, index: int) -> Option<Self::Item> {
        if 0 <= index < self@.len() {
            Some(self@[index])
        } else {
            None
        }
    }
}

/// Iterator over mutable references to NodeMap entries
pub struct NodeMapIterMut<'a, T> {
    /// The entries that are still to come.
    items: Vec<(ValidNodeId, &'a mut T)>,
}

impl<'a, T> View for NodeMapIterMut<'a, T> {
    type V = Seq<(ValidNodeId, &'a mut T)>;

    /// The entries that are still to come.
    closed spec fn view(&self) -> Seq<(ValidNodeId, &'a mut T)> {
        self.items@
    }
}

impl<'a, T> Iterator for NodeMapIterMut<'a, T> {
    type Item = (ValidNodeId, &'a mut T);

    fn next(&mut self) -> (r: Option<Self::Item>)
        ensures
            old(self)@.len() == 0 ==> r is None && final(self)@ == old(self)@,
            old(self)@.len() > 0 ==> r == Some(old(self)@[0]) && final(self)@
                == old(self)@.drop_first(),
    {
        if self.items.len() == 0 {
            return None;
        }
        let ghost before = self.items@;
        let item = self.items.remove(0);
        assert(self.items@ =~= before.drop_first());
        Some(item)
    }
}

impl<'a, T> vstd::std_specs::iter::IteratorSpecImpl for NodeMapIterMut<'a, T> {
    open spec fn obeys_prophetic_iter_laws(&self) -> bool {
        true
    }

    open spec fn remaining(&self) -> Seq<Self::Item> {
        self@
    }

    open spec fn will_return_none(&self) -> bool {
        true
    }

    open spec fn decrease(&self) -> Option<nat> {
        Some(self@.len())
    }

    open spec fn initial_value_relation(&self, init: &Self) -> bool {
        self@ == init@
    }

    open spec fn peek(&self, index: int) -> Option<Self::Item> {
        if 0 <= index < self@.len() {
            Some(self@[index])
        } else {
            None
        }
    }
}

impl<T> NodeMap<T> {
    /// The id of the owner.
    pub closed spec fn owner(&self) -> u64 {
        self.self_id@
    }

    /// The map holds a value for node `id`.
    pub open spec fn has(&self, id: u64) -> bool {
        1 <= id <= self@.len()
    }

    /// Creates a new NodeMap with the given capacity and sentinel value.
    pub fn new(cluster_size: u64, self_id: ValidNodeId, sentinel: T) -> (r: Self)
        where T: Clone,
        requires
            self_id@ <= cluster_size <= usize::MAX,
        ensures
            r.owner() == self_id@,
            r@.len() == cluster_size,
            forall|i: int| 0 <= i < r@.len() ==> cloned::<T>(sentinel, #[trigger] r@[i]),
    {
        let mut data: Vec<T> = Vec::with_capacity(cluster_size as usize);
        let mut i: u64 = 0;
        while i < cluster_size
            invariant
                i <= cluster_size,
                data@.len() == i,
                forall|j: int| 0 <= j < data@.len() ==> cloned::<T>(sentinel, #[trigger] data@[j]),
            decreases cluster_size - i,
        {
            data.push(sentinel.clone());
            i = i + 1;
        }
        Self { data, self_id }
    }

    /// Creates a new NodeMap from an iterator of values, one for each node in order.
    pub fn from_iter<I: Iterator<Item = T>>(cluster_size: u64, self_id: ValidNodeId, iter: I) -> (r:
        Self)
        requires
            self_id@ <= cluster_size <= usize::MAX,
            iter.obeys_prophetic_iter_laws(),
            iter.remaining().len() == cluster_size,
        ensures
            r.owner() == self_id@,
            r@ == iter.remaining(),
    {
        let mut data: Vec<T> = Vec::with_capacity(cluster_size as usize);
        let ghost all = iter.remaining();
        let mut iter = iter;
        let mut i: u64 = 0;
        while i < cluster_size
            invariant
                i <= cluster_size,
                all.len() == cluster_size <= usize::MAX,
                iter.obeys_prophetic_iter_laws(),
                data@ == all.take(i as int),
                iter.remaining() == all.skip(i as int),
            decreases cluster_size - i,
        {
            match iter.next() {
                Some(value) => data.push(value),
                None => {},
            }
            assert(all.take(i + 1) =~= all.take(i as int).push(all[i as int]));
            assert(all.skip(i as int).drop_first() =~= all.skip(i + 1));
            i = i + 1;
        }
        assert(all.take(i as int) =~= all);
        Self { data, self_id }
    }

    /// Returns the number of nodes in the cluster (including the sentinel position).
    pub fn len(&self) -> (r: usize)
        ensures
            r == self@.len(),
    {
        self.data.len()
    }

    /// Returns true if the NodeMap is empty (cluster size is 0).
    pub fn is_empty(&self) -> (r: bool)
        ensures
            r <==> self@.len() == 0,
    {
        self.data.is_empty()
    }

    /// Returns a reference to the value for the given node ID.
    pub fn get(&self, node_id: ValidNodeId) -> (r: &T)
        requires
            self.has(node_id@),
        ensures
            *r == self@[node_id@ - 1],
    {
        assert(self.data@.len() == self.data.len());
        let index: usize = node_id.to_index();
        &self.data[index]
    }

    /// Returns a mutable reference to the value for the given node ID.
    pub fn get_mut(&mut self, node_id: ValidNodeId) -> (r: &mut T)
        requires
            old(self).has(node_id@),
        ensures
            *r == old(self)@[node_id@ - 1],
            final(self)@ == old(self)@.update(node_id@ - 1, *final(r)),
            final(self).owner() == old(self).owner(),
    {
        assert(self.data@.len() == self.data.len());
        let index: usize = node_id.to_index();
        &mut self.data[index]
    }

    /// Sets the value for the given node ID and returns the old value.
    pub fn insert(&mut self, node_id: ValidNodeId, value: T) -> (r: T)
        requires
            old(self).has(node_id@),
        ensures
            r == old(self)@[node_id@ - 1],
            final(self)@ == old(self)@.update(node_id@ - 1, value),
            final(self).owner() == old(self).owner(),
    {
        assert(self.data@.len() == self.data.len());
        let index: usize = node_id.to_index();
        let mut value = value;
        std::mem::swap(&mut self.data[index], &mut value);
        value
    }

    /// Returns true if the node ID is valid (within cluster size).
    pub fn contains_key(&self, node_id: ValidNodeId) -> (r: bool)
        ensures
            r <==> self.has(node_id@),
    {
        node_id.get() <= self.data.len() as u64
    }

    /// Returns an iterator over all entries (node_id, value) pairs, in the order of the ids.
    /// This includes the sentinel value at the owner's position.
    pub fn iter(&self) -> (r: NodeMapIter<'_, T>)
        ensures
            r@.len() == self@.len(),
            forall|i: int|
                0 <= i < r@.len() ==> (#[trigger] r@[i]).0@ == i + 1 && *r@[i].1 == self@[i],
    {
        let mut out: Vec<(ValidNodeId, &T)> = Vec::new();
        let mut i: usize = 0;
        while i < self.data.len()
            invariant
                i <= self.data.len(),
                out@.len() == i,
                forall|j: int|
                    0 <= j < out@.len() ==> (#[trigger] out@[j]).0@ == j + 1 && *out@[j].1
                        == self.data@[j],
            decreases self.data.len() - i,
        {
            out.push((ValidNodeId::from_index(i), &self.data[i]));
            i = i + 1;
        }
        NodeMapIter { items: out }
    }

    /// Returns an iterator over all entries (node_id, value) pairs in the order of the ids,
    /// excluding the sentinel.
    pub fn iter_others(&self) -> (r: NodeMapIter<'_, T>)
        ensures
            r@.map_values(|p: (ValidNodeId, &T)| (p.0@, *p.1)) == others(self@, self.owner()),
    {
        let mut out: Vec<(ValidNodeId, &T)> = Vec::new();
        let mut i: usize = 0;
        let own: u64 = self.self_id.get();
        assert(out@.map_values(|p: (ValidNodeId, &T)| (p.0@, *p.1)) =~= others(
            self.data@.take(0),
            own,
        ));
        while i < self.data.len()
            invariant
                i <= self.data.len(),
                own == self.self_id@,
                out@.map_values(|p: (ValidNodeId, &T)| (p.0@, *p.1)) == others(
                    self.data@.take(i as int),
                    own,
                ),
            decreases self.data.len() - i,
        {
            let ghost before = out@;
            assert(self.data@.take(i + 1).drop_last() =~= self.data@.take(i as int));
            if i as u64 + 1 != own {
                out.push((ValidNodeId::from_index(i), &self.data[i]));
                assert(out@.map_values(|p: (ValidNodeId, &T)| (p.0@, *p.1)) =~= before.map_values(
                    |p: (ValidNodeId, &T)| (p.0@, *p.1),
                ).push(((i + 1) as u64, self.data@[i as int])));
            }
            i = i + 1;
        }
        assert(self.data@.take(i as int) =~= self.data@);
        NodeMapIter { items: out }
    }

    /// Returns a mutable iterator over all entries (node_id, value) pairs, in the
    /// order of the ids. This includes the sentinel value at the owner's position.
    pub fn iter_mut(&mut self) -> (r: NodeMapIterMut<'_, T>)
        ensures
            r@.len() == old(self)@.len(),
            final(self)@.len() == old(self)@.len(),
            final(self).owner() == old(self).owner(),
            forall|i: int|
                0 <= i < r@.len() ==> {
                    &&& (#[trigger] r@[i]).0@ == i + 1
                    &&& *r@[i].1 == old(self)@[i]
                    &&& final(self)@[i] == *final(r@[i].1)
                },
    {
        assert(self.data@.len() == self.data.len());
        NodeMapIterMut { items: pairs_mut(self.data.as_mut_slice(), 0) }
    }

    /// Returns a mutable iterator over all entries (node_id, value) pairs in the
    /// order of the ids, excluding the sentinel.
    pub fn iter_others_mut(&mut self) -> (r: NodeMapIterMut<'_, T>)
        requires
            old(self).has(old(self).owner()),
        ensures
            r@.len() == old(self)@.len() - 1,
            final(self)@.len() == old(self)@.len(),
            final(self).owner() == old(self).owner(),
            final(self)@[old(self).owner() - 1] == old(self)@[old(self).owner() - 1],
            forall|i: int|
                0 <= i < r@.len() ==> {
                    let k = if i < old(self).owner() - 1 {
                        i
                    } else {
                        i + 1
                    };
                    &&& (#[trigger] r@[i]).0@ == k + 1
                    &&& *r@[i].1 == old(self)@[k]
                    &&& final(self)@[k] == *final(r@[i].1)
                },
    {
        assert(self.data@.len() == self.data.len());
        let own: usize = self.self_id.to_index();
        let mut all = pairs_mut(self.data.as_mut_slice(), 0);
        let _ = all.remove(own);
        NodeMapIterMut { items: all }
    }

    /// Returns the node ID of the owner of this NodeMap.
    pub fn self_id(&self) -> (r: ValidNodeId)
        ensures
            r@ == self.owner(),
    {
        self.self_id
    }
}

/// `after` holds clones of the values of `before`, but one of `sentinel` for
/// the owner.
pub open spec fn copied_with_sentinel<T: Clone>(
    before: Seq<T>,
    after: Seq<T>,
    owner: u64,
    sentinel: T,
) -> bool {
    &&& after.len() == before.len()
    &&& forall|i: int|
        0 <= i < after.len() ==> cloned::<T>(
            if i + 1 == owner {
                sentinel
            } else {
                before[i]
            },
            #[trigger] after[i],
        )
}

/// To put the old sentinel back is to restore the map, and only the sentinel
/// differs meanwhile, for values that are equal to their clones.
pub proof fn law_sentinel_can_be_put_back<T: Clone>(
    values: Seq<T>,
    changed: Seq<T>,
    restored: Seq<T>,
    owner: u64,
    sentinel: T,
)
    requires
        1 <= owner <= values.len(),
        forall|a: T, b: T| #[trigger] cloned::<T>(a, b) ==> a == b,
        copied_with_sentinel(values, changed, owner, sentinel),
        copied_with_sentinel(changed, restored, owner, values[owner - 1]),
    ensures
        changed == values.update(owner - 1, sentinel),
        restored == values,
{
    assert(changed =~= values.update(owner - 1, sentinel));
    assert forall|i: int| 0 <= i < values.len() implies restored[i] == values[i] by {
        assert(changed[i] == values.update(owner - 1, sentinel)[i]);
    }
    assert(restored =~= values);
}

impl<T: Clone> NodeMap<T> {
    /// Creates a new NodeMap with the same cluster size and self_id, but with a new sentinel value.
    pub fn with_new_sentinel(&self, new_sentinel: T) -> (r: Self)
        ensures
            r.owner() == self.owner(),
            copied_with_sentinel(self@, r@, self.owner(), new_sentinel),
    {
        let mut new_data: Vec<T> = Vec::with_capacity(self.data.len());
        let own: u64 = self.self_id.get();
        let mut i: usize = 0;
        while i < self.data.len()
            invariant
                i <= self.data.len(),
                own == self.self_id@,
                own >= 1,
                new_data@.len() == i,
                forall|j: int|
                    0 <= j < new_data@.len() ==> cloned::<T>(
                        if j + 1 == own {
                            new_sentinel
                        } else {
                            self.data@[j]
                        },
                        #[trigger] new_data@[j],
                    ),
            decreases self.data.len() - i,
        {
            if i as u64 == own - 1 {
                new_data.push(new_sentinel.clone());
            } else {
                new_data.push(self.data[i].clone());
            }
            i = i + 1;
        }
        Self { data: new_data, self_id: self.self_id }
    }
}

impl<T> std::ops::Index<ValidNodeId> for NodeMap<T> {
    type Output = T;

    fn index(&self, node_id: ValidNodeId) -> (r: &T)
        ensures
            *r == self@[node_id@ - 1],
    {
        self.get(node_id)
    }
}

impl<T> vstd::std_specs::core::IndexSpecImpl<ValidNodeId> for NodeMap<T> {
    open spec fn index_req(&self, node_id: &ValidNodeId) -> bool {
        self.has(node_id@)
    }
}

impl<'a, T> IntoIterator for &'a NodeMap<T> {
    type Item = (ValidNodeId, &'a T);

    type IntoIter = NodeMapIter<'a, T>;

    fn into_iter(self) -> (r: Self::IntoIter)
        ensures
            r@.len() == self@.len(),
            forall|i: int|
                0 <= i < r@.len() ==> (#[trigger] r@[i]).0@ == i + 1 && *r@[i].1 == self@[i],
    {
        self.iter()
    }
}

impl<'a, T> IntoIterator for &'a mut NodeMap<T> {
    type Item = (ValidNodeId, &'a mut T);

    type IntoIter = NodeMapIterMut<'a, T>;

    fn into_iter(self) -> (r: Self::IntoIter)
        ensures
            r@.len() == old(self)@.len(),
            final(self)@.len() == old(self)@.len(),
            final(self).owner() == old(self).owner(),
            forall|i: int|
                0 <= i < r@.len() ==> {
                    &&& (#[trigger] r@[i]).0@ == i + 1
                    &&& *r@[i].1 == old(self)@[i]
                    &&& final(self)@[i] == *final(r@[i].1)
                },
    {
        self.iter_mut()
    }
}

/// What was put into a map is found there, and nothing else changed.
pub proof fn law_read_after_insert<T>(values: Seq<T>, id: u64, other: u64, value: T)
    requires
        1 <= id <= values.len(),
        1 <= other <= values.len(),
    ensures
        values.update(id - 1, value)[id - 1] == value,
        other != id ==> values.update(id - 1, value)[other - 1] == values[other - 1],
{
}

/// Without the owner every node is there once, with its own value, in the order
/// of the ids.
pub proof fn law_others_are_all_but_the_owner<T>(values: Seq<T>, owner: u64)
    requires
        values.len() <= u64::MAX,
        owner != 0,
    ensures
        others(values, owner).len() == if owner <= values.len() {
            (values.len() - 1) as nat
        } else {
            values.len()
        },
        forall|i: int|
            0 <= i < values.len() && i < owner - 1 ==> others(values, owner)[i] == (
                (i + 1) as u64,
                #[trigger] values[i],
            ),
        forall|i: int|
            owner <= i < values.len() ==> others(values, owner)[i - 1] == (
                (i + 1) as u64,
                #[trigger] values[i],
            ),
    decreases values.len(),
{
    if values.len() > 0 {
        let fewer = values.drop_last();
        law_others_are_all_but_the_owner(fewer, owner);
        assert forall|i: int| 0 <= i < values.len() && i < owner - 1 implies others(values, owner)[i]
            == ((i + 1) as u64, #[trigger] values[i]) by {
            if i < fewer.len() {
                assert(fewer[i] == values[i]);
            }
        }
        assert forall|i: int| owner <= i < values.len() implies others(values, owner)[i - 1] == (
            (i + 1) as u64,
            #[trigger] values[i],
        ) by {
            if i < fewer.len() {
                assert(fewer[i] == values[i]);
            }
        }
    }
}

} // verus!
