//! Values passed by value into a task call instead of through a cell.
use vstd::prelude::*;

verus! {

/// A value passed by value instead of by reference; it is kept in the
/// persistent cache and so must be serializable.
#[derive(Debug, PartialEq, Eq, PartialOrd, Ord, Clone, Hash)]
pub struct Value<T> {
    inner: T,
}

impl<T> Value<T> {
    /// The value that this wrapper holds.
    pub closed spec fn inner(self) -> T {
        self.inner
    }

    /// Wraps `value`.
    pub fn new(value: T) -> (r: Self)
        ensures
            r.inner() == value,
    {
        Self { inner: value }
    }

    /// Gives the wrapped value back.
    pub fn into_value(self) -> (r: T)
        ensures
            r == self.inner(),
    {
        self.inner
    }

    /// Borrows the wrapped value.
    pub fn get(&self) -> (r: &T)
        ensures
            *r == self.inner(),
    {
        &self.inner
    }
}

impl<T> std::ops::Deref for Value<T> {
    type Target = T;

    fn deref(&self) -> (r: &T)
        ensures
            *r == self.inner(),
    {
        &self.inner
    }
}

/// A value passed by value instead of by reference; it is never stored in
/// the persistent cache and need not be serializable.
#[derive(Debug, PartialEq, Eq, PartialOrd, Ord, Clone, Hash)]
pub struct TransientValue<T> {
    inner: T,
}

impl<T> TransientValue<T> {
    /// The value that this wrapper holds.
    pub closed spec fn inner(self) -> T {
        self.inner
    }

    /// Wraps `value`.
    pub fn new(value: T) -> (r: Self)
        ensures
            r.inner() == value,
    {
        Self { inner: value }
    }

    /// Gives the wrapped value back.
    pub fn into_value(self) -> (r: T)
        ensures
            r == self.inner(),
    {
        self.inner
    }

    /// Borrows the wrapped value.
    pub fn get(&self) -> (r: &T)
        ensures
            *r == self.inner(),
    {
        &self.inner
    }
}

impl<T> std::ops::Deref for TransientValue<T> {
    type Target = T;

    fn deref(&self) -> (r: &T)
        ensures
            *r == self.inner(),
    {
        &self.inner
    }
}

/// A wrapper is determined by the value it holds: two wrappers that hold
/// the same value are the same wrapper.
pub proof fn lemma_wrapper_determined_by_value<T>(a: Value<T>, b: Value<T>, c: TransientValue<T>, d: TransientValue<T>)
    ensures
        a.inner() == b.inner() ==> a == b,
        c.inner() == d.inner() ==> c == d,
{
}

} // verus!
