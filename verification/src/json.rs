//! JSON response payload marker.
//!
//! Wrapping a value in [`Json`] tells the response-building glue to
//! serialize it as JSON with the matching content type; the serialization
//! itself is done outside this crate.

use vstd::prelude::*;

verus! {

/// A value to be sent as a JSON response body.
#[derive(Debug, Clone, Copy, Default)]
pub struct Json<T>(pub T);

impl<T> Json<T> {
    /// The wrapped value.
    pub fn into_inner(self) -> (r: T)
        ensures
            r == self.0,
    {
        self.0
    }
}

impl<T> From<T> for Json<T> {
    fn from(inner: T) -> (r: Self) {
        Json(inner)
    }
}

impl<T> vstd::std_specs::convert::FromSpecImpl<T> for Json<T> {
    open spec fn obeys_from_spec() -> bool {
        true
    }

    open spec fn from_spec(inner: T) -> Self {
        Json(inner)
    }
}

} // verus!
