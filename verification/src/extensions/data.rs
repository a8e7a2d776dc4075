//! Shared handles to extensions.

use std::sync::Arc;
use vstd::prelude::*;

verus! {

/// `Arc::clone` makes another pointer to the same value, which it does not
/// copy.
#[verifier::external_body]
fn share<T>(handle: &Arc<T>) -> (copy: Arc<T>)
    ensures
        copy == *handle,
{
    Arc::clone(handle)
}

/// A shared handle to a value: copies of the handle share the one value,
/// which is never copied.
#[derive(Debug)]
pub struct Data<T>(Arc<T>);

impl<T> View for Data<T> {
    type V = T;

    closed spec fn view(&self) -> T {
        *self.0
    }
}

impl<T> Clone for Data<T> {
    fn clone(&self) -> (copy: Data<T>)
        ensures
            copy@ == self@,
    {
        Data(share(&self.0))
    }
}

impl<T> Data<T> {
    /// A handle to `state`.
    pub fn new(state: T) -> (data: Data<T>)
        ensures
            data@ == state,
    {
        Data(Arc::new(state))
    }

    /// The value behind the handle.
    pub fn get_ref(&self) -> (value: &T)
        ensures
            *value == self@,
    {
        &*self.0
    }

    /// The handle as the shared pointer that it is.
    pub fn into_inner(self) -> (inner: Arc<T>)
        ensures
            *inner == self@,
    {
        self.0
    }

    /// A handle made of a shared pointer.
    pub fn from_arc(arc: Arc<T>) -> (data: Data<T>)
        ensures
            data@ == *arc,
    {
        Data(arc)
    }
}

impl<T> core::ops::Deref for Data<T> {
    type Target = Arc<T>;

    fn deref(&self) -> (inner: &Arc<T>)
        ensures
            **inner == self@,
    {
        &self.0
    }
}

} // verus!
