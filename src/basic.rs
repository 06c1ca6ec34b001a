use vstd::prelude::*;

use crate::entity::{ComponentId, Entity};

verus! {

/// A component that names an entity.
pub struct Label {
    pub text: String,
}

impl Label {
    pub fn new(text: String) -> (r: Self)
        ensures
            r.text@ == text@,
    {
        Label { text }
    }
}

/// An event asking for a component to be removed from an entity.
pub struct TryRemoveComponent {
    pub entity: Entity,
    pub component_id: ComponentId,
}

/// An event asking for a component value to be added to an entity.
pub struct TryAddComponent<V> {
    pub entity: Entity,
    pub component_id: ComponentId,
    pub component: V,
}

} // verus!
