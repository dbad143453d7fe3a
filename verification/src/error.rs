use vstd::prelude::*;

use vstd::string::StringExecFns;

use crate::text::{decimal, decimal_of};

verus! {

/// What a log operation can fail with.
#[derive(Clone, Copy, PartialEq, Eq, Debug, Structural)]
pub enum Error {
    /// No entry can stand at this index.
    InvalidIdx(u64),
    /// The range `[low, high)` does not lie inside the log.
    InvalidRange(u64, u64),
    /// The id is zero, which names no node.
    InvalidNodeId,
}

impl Error {
    /// What an error tells its reader.
    pub open spec fn message_text(self) -> Seq<char> {
        match self {
            Error::InvalidIdx(idx) => "invalid idx: "@ + decimal_of(idx as nat),
            Error::InvalidRange(low, high) => "invalid range: ["@ + decimal_of(low as nat) + ", "@
                + decimal_of(high as nat) + ")"@,
            Error::InvalidNodeId => "invalid node id"@,
        }
    }

    /// What this error tells its reader.
    pub fn message(&self) -> (r: String)
        ensures
            r@ == self.message_text(),
    {
        match self {
            Error::InvalidIdx(idx) => {
                let mut s = "invalid idx: ".to_owned();
                let n = decimal(*idx);
                s.append(n.as_str());
                s
            },
            Error::InvalidRange(low, high) => {
                let mut s = "invalid range: [".to_owned();
                let from = decimal(*low);
                s.append(from.as_str());
                s.append(", ");
                let to = decimal(*high);
                s.append(to.as_str());
                s.append(")");
                s
            },
            Error::InvalidNodeId => "invalid node id".to_owned(),
        }
    }
}

/// Global raft error type
pub type Result<T> = std::result::Result<T, Error>;

/// Errors are told apart by what they say: each of the indices that an error is
/// about stands in its message.
pub proof fn law_errors_say_what_they_are_about(a: u64, b: u64)
    ensures
        Error::InvalidIdx(a).message_text().skip(13) == decimal_of(a as nat),
        ({
            let text = Error::InvalidRange(a, b).message_text();
            let low = decimal_of(a as nat);
            let high = decimal_of(b as nat);
            &&& text.subrange(16, 16 + low.len() as int) == low
            &&& text.subrange(18 + low.len() as int, 18 + low.len() + high.len() as int) == high
            &&& text.len() == low.len() + high.len() + 19
        }),
{
    reveal_strlit("invalid idx: ");
    reveal_strlit("invalid range: [");
    reveal_strlit(", ");
    reveal_strlit(")");
    assert(Error::InvalidIdx(a).message_text().skip(13) =~= decimal_of(a as nat));
    let text = Error::InvalidRange(a, b).message_text();
    let low = decimal_of(a as nat);
    let high = decimal_of(b as nat);
    assert(text.subrange(16, 16 + low.len() as int) =~= low);
    assert(text.subrange(18 + low.len() as int, 18 + low.len() + high.len() as int) =~= high);
}

} // verus!
