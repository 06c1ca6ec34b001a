use vstd::prelude::*;

verus! {

/// An opaque identity handle, issued by spawning.
pub type Entity = u64;

/// The identifier of a component type.
pub type ComponentId = u64;

/// The identifier of an event type.
pub type EventId = u64;

} // verus!
