//! A single-value container whose value can be moved out for the duration of
//! a callback and is put back when the callback returns.

use vstd::prelude::*;

verus! {

/// The error returned by every access to a [`Float`] that has lost its value.
///
/// A `Float` loses its value only when a callback that had been handed the
/// value unwinds before giving one back.
#[derive(Clone, Copy, PartialEq, Eq, PartialOrd, Ord, Structural, Debug)]
pub struct PoisonError;

impl PoisonError {
    /// The human-readable description of the error.
    pub fn message(&self) -> (text: String)
        ensures
            text@ == "poisoned float: task unwinded while value was floated"@,
    {
        "poisoned float: task unwinded while value was floated".to_owned()
    }
}

/// A container that holds exactly one value, except while the value is
/// floated out to a callback.
///
/// The view is `Some(v)` while the value `v` is present and `None` once the
/// container is poisoned.
#[derive(Clone, Copy, PartialEq, Eq, PartialOrd, Ord, Debug)]
pub struct Float<T> {
    inner: Option<T>,
}

impl<T> View for Float<T> {
    type V = Option<T>;

    closed spec fn view(&self) -> Option<T> {
        self.inner
    }
}

impl<T> Float<T> {
    /// Whether the value is present.
    pub open spec fn is_present(&self) -> bool {
        self@ is Some
    }

    /// The value held; meaningful only while [`Self::is_present`].
    pub open spec fn value(&self) -> T {
        self@->Some_0
    }

    /// Creates a container holding `value`.
    pub fn new(value: T) -> (float: Self)
        ensures
            float@ == Some(value),
    {
        Float { inner: Some(value) }
    }

    /// A container without a value: what is left of a container when the
    /// callback that its value was floated to unwinds.
    pub fn poisoned() -> (float: Self)
        ensures
            float@ is None,
    {
        Float { inner: None }
    }

    /// Consumes the container and gives back its value, or the poison error
    /// when there is none.
    pub fn into_inner(self) -> (result: Result<T, PoisonError>)
        ensures
            result == match self@ {
                Some(value) => Ok::<T, PoisonError>(value),
                None => Err::<T, PoisonError>(PoisonError),
            },
    {
        match self.inner {
            Some(value) => Ok(value),
            None => Err(PoisonError),
        }
    }

    /// Borrows the value, or fails with the poison error when there is none.
    pub fn as_ref(&self) -> (result: Result<&T, PoisonError>)
        ensures
            result == match self@ {
                Some(value) => Ok::<&T, PoisonError>(&value),
                None => Err::<&T, PoisonError>(PoisonError),
            },
    {
        match &self.inner {
            Some(value) => Ok(value),
            None => Err(PoisonError),
        }
    }

    /// Borrows the value mutably, or fails with the poison error when there
    /// is none. Whatever the caller writes through the borrow is the value
    /// held afterwards; a poisoned container stays poisoned.
    pub fn as_mut(&mut self) -> (result: Result<&mut T, PoisonError>)
        ensures
            old(self)@ is Some <==> result is Ok,
            result matches Ok(value) ==> *value == old(self)@->Some_0 && final(self)@ == Some(
                *final(value),
            ),
            result is Err ==> final(self)@ is None,
    {
        match &mut self.inner {
            Some(value) => Ok(value),
            None => Err(PoisonError),
        }
    }

    /// Moves the value out, leaving the container empty until [`Self::put`].
    pub(crate) fn take(&mut self) -> (value: T)
        requires
            old(self)@ is Some,
        ensures
            value == old(self)@->Some_0,
            final(self)@ is None,
    {
        self.inner.take().unwrap()
    }

    /// Stores `value`.
    pub(crate) fn put(&mut self, value: T)
        ensures
            final(self)@ == Some(value),
    {
        self.inner = Some(value);
    }

    /// Hands the value to `f` by value and stores the value that `f` gives
    /// back, returning the extra result of `f`.
    ///
    /// On a poisoned container `f` is not called and the poison error is
    /// returned. After `Ok` the container always holds a value.
    pub fn float<F, R>(&mut self, f: F) -> (result: Result<R, PoisonError>) where
        F: FnOnce(T) -> (T, R),

        requires
            old(self)@ is Some ==> f.requires((old(self)@->Some_0,)),
        ensures
            old(self)@ is Some <==> result is Ok,
            result matches Ok(extra) ==> final(self)@ is Some && f.ensures(
                (old(self)@->Some_0,),
                (final(self)@->Some_0, extra),
            ),
            result is Err ==> final(self)@ is None,
    {
        match self.inner.take() {
            Some(value) => {
                let (value, extra) = f(value);
                self.inner = Some(value);
                Ok(extra)
            },
            None => Err(PoisonError),
        }
    }

    /// Hands the value to `f` by value and stores the value that `f` gives
    /// back.
    ///
    /// On a poisoned container `f` is not called and the poison error is
    /// returned. After `Ok` the container always holds a value.
    pub fn float_<F>(&mut self, f: F) -> (result: Result<(), PoisonError>) where F: FnOnce(T) -> T
        requires
            old(self)@ is Some ==> f.requires((old(self)@->Some_0,)),
        ensures
            old(self)@ is Some <==> result is Ok,
            result is Ok ==> final(self)@ is Some && f.ensures(
                (old(self)@->Some_0,),
                final(self)@->Some_0,
            ),
            result is Err ==> final(self)@ is None,
    {
        match self.inner.take() {
            Some(value) => {
                let value = f(value);
                self.inner = Some(value);
                Ok(())
            },
            None => Err(PoisonError),
        }
    }
}

} // verus!
