//! Mutation observers and their registrations.
use vstd::prelude::*;

verus! {

/// An observer together with the options it was registered with.
#[derive(PartialEq, Eq, PartialOrd, Ord, Debug, Clone)]
pub struct RegisteredObserver {
    pub observer: MutationObserver,
    pub options: MutationObserverInit,
}

/// A mutation observer.
#[derive(PartialEq, Eq, PartialOrd, Ord, Debug, Clone)]
pub struct MutationObserver {}

/// The options a mutation observer is registered with.
#[derive(PartialEq, Eq, PartialOrd, Ord, Debug, Clone)]
pub struct MutationObserverInit {}

} // verus!
