use vstd::prelude::*;

verus! {

/// Discards a value on purpose, such as the result of a write whose failure
/// the caller chooses to ignore.
pub trait Auxiliaries: Sized {
    fn ignore(self) {
    }
}

impl<T> Auxiliaries for T {
}

} // verus!
