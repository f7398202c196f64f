//! The capability contract for a single declared handler input.
//!
//! A parameter kind describes how one handler input is resolved from the
//! typed context store: given the store and the key of the declared type,
//! produce the value the handler parameter receives.  Resolution never
//! consumes the store, so several parameters can be resolved in one
//! invocation.

use vstd::prelude::*;

use crate::context::provider::ContextProvider;

verus! {

/// How a single declared handler input is resolved from the context store.
///
/// Resolution is only defined when the declared type was registered; the
/// absence of the type is a wiring defect that the caller detects first and
/// reports as a missing-context failure.
pub trait ContextParameter<'r, V>: Sized {
    /// What it means for a resolved parameter to come from `store` at `key`.
    spec fn resolved_from(self, store: Map<u64, V>, key: u64) -> bool;

    /// Resolves the parameter from the store.  Pure: the store is read, not
    /// consumed.
    fn retrieve(contexts: &'r ContextProvider<V>, key: u64) -> (r: Self)
        requires
            contexts@.contains_key(key),
        ensures
            r.resolved_from(contexts@, key),
    ;
}

/// A parameter kind handing the handler a shared, read-only reference to
/// the registered value.
pub struct Context<'a, V> {
    value: &'a V,
}

impl<'a, V> Context<'a, V> {
    /// The resolved reference itself.
    pub fn get(&self) -> (r: &'a V)
        ensures
            *r == self.value_spec(),
    {
        self.value
    }

    /// The resolved value, as an abstract value.
    pub closed spec fn value_spec(&self) -> V {
        *self.value
    }
}

impl<'r, V> ContextParameter<'r, V> for Context<'r, V> {
    open spec fn resolved_from(self, store: Map<u64, V>, key: u64) -> bool {
        store.contains_key(key) && self.value_spec() == store[key]
    }

    fn retrieve(contexts: &'r ContextProvider<V>, key: u64) -> (r: Self) {
        match contexts.get(key) {
            Some(value) => Context { value },
            None => vstd::pervasive::unreached(),
        }
    }
}

} // verus!
