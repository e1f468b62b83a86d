//! The ways in which encoding a tree can fail.

use vstd::prelude::*;

verus! {

/// Why no document was produced.
#[derive(Clone, Copy, Debug, PartialEq, Eq, Structural)]
pub enum EncodeError {
    /// An identifier that had to be encoded names no instance of the tree.
    MissingInstance,
    /// A property holds a value of a kind that the format has no element for yet.
    UnsupportedValue,
    /// The instances nest deeper than the tree has instances, so the
    /// child lists must lead back into themselves.
    TooDeep,
    /// The XML writer refused a token: the end of an element where none
    /// was open.
    Sink,
}

} // verus!
