use vstd::prelude::*;

verus! {

/// A `u64` that is never zero.
#[derive(Clone, Copy, PartialEq, Eq, Debug, Structural)]
pub struct NonZeroU64 {
    value: u64,
}

impl View for NonZeroU64 {
    type V = u64;

    closed spec fn view(&self) -> u64 {
        self.value
    }
}

impl NonZeroU64 {
    #[verifier::type_invariant]
    closed spec fn not_zero(self) -> bool {
        self.value != 0
    }

    /// Wraps `value`, unless it is zero.
    pub fn new(value: u64) -> (r: Option<NonZeroU64>)
        ensures
            r == nonzero_of(value),
            r is Some <==> value != 0,
            r matches Some(n) ==> n@ == value,
    {
        if value == 0 {
            None
        } else {
            Some(NonZeroU64 { value })
        }
    }

    /// The wrapped value.
    pub fn get(&self) -> (r: u64)
        ensures
            r == self@,
            r != 0,
    {
        proof {
            use_type_invariant(self);
        }
        self.value
    }
}

/// The non-zero number `value`, where there is one.
pub closed spec fn nonzero_of(value: u64) -> Option<NonZeroU64> {
    if value == 0 {
        None
    } else {
        Some(NonZeroU64 { value })
    }
}

/// What `nonzero_of` gives, and that a number has one wrapping only.
pub proof fn lemma_nonzero_of(value: u64)
    ensures
        nonzero_of(value) is Some <==> value != 0,
        nonzero_of(value) matches Some(n) ==> n@ == value,
        forall|n: NonZeroU64| #[trigger] n@ == value && value != 0 ==> nonzero_of(value) == Some(n),
{
}

} // verus!
