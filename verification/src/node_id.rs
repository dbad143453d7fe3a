use vstd::prelude::*;

use vstd::string::StringExecFns;

use crate::error::Error;
use crate::text::{decimal, decimal_of, law_decimal_round_trip};
use crate::nonzero::{lemma_nonzero_of, nonzero_of, NonZeroU64};

verus! {

/// A (potentially invalid) node id.
#[derive(Clone, Copy, PartialEq, Eq, Debug, Structural)]
pub struct NodeId(pub Option<NonZeroU64>);

/// A valid node id that is guaranteed to be non-zero.
#[derive(Clone, Copy, PartialEq, Eq, Debug, Structural)]
pub struct ValidNodeId(pub NonZeroU64);

/// The number that names no node.
pub const INVALID_ID: u64 = 0;

impl View for NodeId {
    type V = u64;

    /// The id as a number, 0 where it is invalid.
    open spec fn view(&self) -> u64 {
        match self.0 {
            Some(n) => n@,
            None => 0,
        }
    }
}

impl View for ValidNodeId {
    type V = u64;

    open spec fn view(&self) -> u64 {
        self.0@
    }
}

impl NodeId {
    /// The number of this id, 0 where it is invalid.
    pub fn to_u64(&self) -> (r: u64)
        ensures
            r == self@,
            r == 0 <==> self.0 is None,
    {
        match self.0 {
            Some(n) => n.get(),
            None => 0,
        }
    }

    /// How an id is written.
    pub open spec fn text_of(self) -> Seq<char> {
        if self.0 is None {
            "invalid node id"@
        } else {
            "["@ + decimal_of(self@ as nat) + "]"@
        }
    }

    /// How this id is written.
    pub fn text(&self) -> (r: String)
        ensures
            r@ == self.text_of(),
    {
        match self.0 {
            Some(id) => {
                let mut s = "[".to_owned();
                let n = decimal(id.get());
                s.append(n.as_str());
                s.append("]");
                s
            },
            None => "invalid node id".to_owned(),
        }
    }
}

impl ValidNodeId {
    /// Creates a new ValidNodeId from a non-zero u64 value.
    pub fn new(value: u64) -> (r: Option<Self>)
        ensures
            r is Some <==> value != 0,
            r matches Some(id) ==> id@ == value,
    {
        match NonZeroU64::new(value) {
            Some(n) => Some(ValidNodeId(n)),
            None => None,
        }
    }

    /// Returns the underlying u64 value.
    pub fn get(&self) -> (r: u64)
        ensures
            r == self@,
            r != 0,
    {
        self.0.get()
    }

    /// Returns the zero-based index for this node ID.
    /// Node ID 1 -> index 0, Node ID 2 -> index 1, etc.
    pub fn to_index(&self) -> (r: usize)
        requires
            self@ <= usize::MAX,
        ensures
            r == self@ - 1,
    {
        (self.get() - 1) as usize
    }

    /// Creates a ValidNodeId from a zero-based index.
    /// Index 0 -> Node ID 1, Index 1 -> Node ID 2, etc.
    pub fn from_index(index: usize) -> (r: Self)
        requires
            index < u64::MAX,
        ensures
            r@ == index + 1,
    {
        let value: u64 = index as u64 + 1;
        ValidNodeId(NonZeroU64::new(value).unwrap())
    }
}

/// The node id numbered `value`; 0 gives the invalid id.
pub open spec fn node_id_of(value: u64) -> NodeId {
    NodeId(nonzero_of(value))
}

/// The number of the id that is numbered `value`.
pub proof fn lemma_node_id_of(value: u64)
    ensures
        node_id_of(value)@ == value,
{
    lemma_nonzero_of(value);
}

impl From<u64> for NodeId {
    fn from(value: u64) -> NodeId {
        proof {
            lemma_nonzero_of(value);
        }
        NodeId(NonZeroU64::new(value))
    }
}

impl vstd::std_specs::convert::FromSpecImpl<u64> for NodeId {
    open spec fn obeys_from_spec() -> bool {
        true
    }

    open spec fn from_spec(value: u64) -> NodeId {
        node_id_of(value)
    }
}

impl From<ValidNodeId> for NodeId {
    fn from(value: ValidNodeId) -> NodeId {
        NodeId(Some(value.0))
    }
}

impl vstd::std_specs::convert::FromSpecImpl<ValidNodeId> for NodeId {
    open spec fn obeys_from_spec() -> bool {
        true
    }

    open spec fn from_spec(value: ValidNodeId) -> NodeId {
        NodeId(Some(value.0))
    }
}

impl TryFrom<NodeId> for ValidNodeId {
    type Error = Error;

    fn try_from(value: NodeId) -> std::result::Result<Self, Error> {
        match value.0 {
            Some(val) => Ok(ValidNodeId(val)),
            None => Err(Error::InvalidNodeId),
        }
    }
}

impl vstd::std_specs::convert::TryFromSpecImpl<NodeId> for ValidNodeId {
    open spec fn obeys_try_from_spec() -> bool {
        true
    }

    open spec fn try_from_spec(value: NodeId) -> std::result::Result<Self, Error> {
        match value.0 {
            Some(val) => Ok(ValidNodeId(val)),
            None => Err(Error::InvalidNodeId),
        }
    }
}

impl From<NodeId> for u64 {
    fn from(value: NodeId) -> u64 {
        value.to_u64()
    }
}

impl vstd::std_specs::convert::FromSpecImpl<NodeId> for u64 {
    open spec fn obeys_from_spec() -> bool {
        true
    }

    open spec fn from_spec(value: NodeId) -> u64 {
        value@
    }
}

impl From<ValidNodeId> for u64 {
    fn from(value: ValidNodeId) -> u64 {
        value.get()
    }
}

impl vstd::std_specs::convert::FromSpecImpl<ValidNodeId> for u64 {
    open spec fn obeys_from_spec() -> bool {
        true
    }

    open spec fn from_spec(value: ValidNodeId) -> u64 {
        value@
    }
}

/// An id is written as its number in brackets, and different ids are written
/// differently.
pub proof fn law_ids_are_written_apart(a: u64, b: u64)
    ensures
        a != 0 ==> {
            let text = node_id_of(a).text_of();
            &&& text[0] == '['
            &&& text.last() == ']'
            &&& text.subrange(1, text.len() - 1) == decimal_of(a as nat)
        },
        node_id_of(a).text_of() == node_id_of(b).text_of() ==> a == b,
{
    reveal_strlit("[");
    reveal_strlit("]");
    reveal_strlit("invalid node id");
    lemma_nonzero_of(a);
    lemma_nonzero_of(b);
    lemma_node_id_of(a);
    lemma_node_id_of(b);
    let x = node_id_of(a).text_of();
    let y = node_id_of(b).text_of();
    if a != 0 {
        assert(x.subrange(1, x.len() - 1) =~= decimal_of(a as nat));
    }
    if b != 0 {
        assert(y.subrange(1, y.len() - 1) =~= decimal_of(b as nat));
        assert(y[0] == '[');
    }
    if x == y {
        assert(x[0] == y[0]);
        law_decimal_round_trip(a as nat);
        law_decimal_round_trip(b as nat);
    }
}

} // verus!
