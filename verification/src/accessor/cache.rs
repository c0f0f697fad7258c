//! Cache helper for random access pxar accesses.

use std::sync::Arc;

use vstd::prelude::*;

verus! {

/// A simple caching trait to help speed up random access for pxar archives. Whether a value is
/// handed out is open; which values may be, the implementation says.
pub trait Cache<K, V>: Send + Sync {
    /// The cache may hand out this value for this key.
    open spec fn gives(&self, key: K, value: V) -> bool {
        true
    }

    /// The cache was handed this value for this key.
    open spec fn took(&self, key: K, value: V) -> bool {
        true
    }

    /// Fetch a value from this cache store.
    fn fetch(&self, key: K) -> (r: Option<Arc<V>>)
        ensures
            r matches Some(value) ==> self.gives(key, *value),
    ;

    /// Update the cache with a value.
    ///
    /// It is up to the implementation to choose whether or not to store the value. Note that since
    /// all values are `Arc`s, the values will remain alive as long as they're in use even if
    /// they're not cached.
    fn insert(&self, key: K, value: Arc<V>)
        ensures
            self.took(key, *value),
    ;
}

} // verus!
