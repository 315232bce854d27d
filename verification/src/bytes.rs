use vstd::prelude::*;

verus! {

/// A byte buffer that can be emptied in place, so that a builder or an
/// encoder can be reused.
pub trait Clear {
    /// Empties the buffer.
    fn reset(&mut self)
        ensures
            final(self).cleared_view(),
    ;

    spec fn cleared_view(&self) -> bool;
}

/// The byte buffer that encoded transducers are written to.
pub type Bytes = Vec<u8>;

impl Clear for Vec<u8> {
    open spec fn cleared_view(&self) -> bool {
        self@.len() == 0
    }

    fn reset(&mut self) {
        self.clear();
    }
}

} // verus!
