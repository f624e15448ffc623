use vstd::prelude::*;

pub mod wide;
pub mod verbose;
pub mod wald;

verus! {

/// A tree held apart from the primitive buffer it was built over, so that the
/// buffer can be changed and the tree storage handed back to a rebuild.
pub struct Capture<T> {
    inner: T,
}

impl<T> Capture<T> {
    /// Holds `inner` until it is released again.
    pub fn new(inner: T) -> (r: Self)
        ensures
            r.view_inner() == inner,
    {
        Capture { inner }
    }

    pub closed spec fn view_inner(&self) -> T {
        self.inner
    }

    /// Gives back what was held.
    pub fn release(self) -> (r: T)
        ensures
            r == self.view_inner(),
    {
        self.inner
    }
}

} // verus!
