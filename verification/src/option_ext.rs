//! A small extension to `Option`: mapping through a fallible function.

use vstd::prelude::*;

verus! {

/// Maps an optional value through a fallible function: `None` stays
/// `Ok(None)`, `Some(t)` becomes `f(t)` with its success wrapped.
pub trait OptionExt<T>: Sized {
    /// The optional value the receiver stands for.
    spec fn inner_spec(&self) -> Option<T>;

    fn try_map<E, U, F: FnOnce(T) -> Result<U, E>>(self, f: F) -> (r: Result<Option<U>, E>)
        requires
            self.inner_spec() is Some ==> call_requires(f, (self.inner_spec()->0,)),
        ensures
            self.inner_spec() is None ==> r == Ok::<Option<U>, E>(None),
            self.inner_spec() is Some ==> match r {
                Ok(u) => u is Some && call_ensures(f, (self.inner_spec()->0,), Ok(u->0)),
                Err(e) => call_ensures(f, (self.inner_spec()->0,), Err(e)),
            },
    ;
}

impl<T> OptionExt<T> for Option<T> {
    open spec fn inner_spec(&self) -> Option<T> {
        *self
    }

    fn try_map<E, U, F: FnOnce(T) -> Result<U, E>>(self, f: F) -> (r: Result<Option<U>, E>) {
        match self {
            None => Ok(None),
            Some(t) => match f(t) {
                Ok(u) => Ok(Some(u)),
                Err(e) => Err(e),
            },
        }
    }
}

} // verus!
