//! What may travel: each message type says which of its values are valid.

use vstd::prelude::*;

verus! {

/// A check that a value is one the wire format can carry and the peers accept.
pub trait ValidityCheck {
    /// The values that are valid.
    spec fn valid(&self) -> bool;

    fn is_valid(&self) -> (ok: bool)
        ensures
            ok == self.valid(),
    ;
}

} // verus!
