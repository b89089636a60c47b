//! The interface through which application code uses a shared resource,
//! whatever the backend.
use vstd::prelude::*;

verus! {

/// Exclusive access to a value of type `T`.
pub trait Mutex<T> {
    /// The protected value.
    spec fn protected(&self) -> T;

    /// Run `f` on the protected value, with exclusive access to it: the
    /// result is the one `f` returns and the protected value becomes the one
    /// `f` leaves behind.
    fn lock<R, F: FnOnce(&mut T) -> R>(&mut self, f: F) -> (r: R)
        requires
            forall|v: &mut T| *v == old(self).protected() ==> f.requires((v,)),
        ensures
            exists|m: &mut T|
                *m == old(self).protected() && *final(m) == final(self).protected() && f.ensures((m,), r);
}

impl<'a, T, const CEIL: u8> Mutex<T> for crate::resource::Mutex<'a, T, CEIL> {
    open spec fn protected(&self) -> T {
        self.value()
    }

    fn lock<R, F: FnOnce(&mut T) -> R>(&mut self, f: F) -> (r: R) {
        crate::resource::Mutex::lock(self, f)
    }
}

} // verus!
