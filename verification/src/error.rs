//! Why decoding a message can fail.

use vstd::prelude::*;

verus! {

/// The reason a decoder gave up on its input.
#[derive(Clone, Copy, Debug, PartialEq, Eq, Structural)]
#[non_exhaustive]
pub enum DecodeError {
    /// The input ends before the item being decoded does.
    TruncatedMessage,
}

} // verus!
