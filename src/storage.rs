use vstd::prelude::*;

use crate::entity::{ComponentId, Entity};

verus! {

/// One stored component value, with the entity and component type it belongs to.
pub struct Slot<V> {
    pub entity: Entity,
    pub component: ComponentId,
    pub value: V,
}

/// Type-erased component storage: at most one value per (entity, component type).
pub struct Storage<V> {
    slots: Vec<Slot<V>>,
}

pub open spec fn slot_key<V>(s: Slot<V>) -> (Entity, ComponentId) {
    (s.entity, s.component)
}

/// The map that a sequence of slots with distinct keys stands for.
pub open spec fn slots_map<V>(slots: Seq<Slot<V>>) -> Map<(Entity, ComponentId), V> {
    Map::new(
        |k: (Entity, ComponentId)| exists|i: int| 0 <= i < slots.len() && slot_key(#[trigger] slots[i]) == k,
        |k: (Entity, ComponentId)|
            slots[choose|i: int| 0 <= i < slots.len() && slot_key(#[trigger] slots[i]) == k].value,
    )
}

pub open spec fn distinct_keys<V>(slots: Seq<Slot<V>>) -> bool {
    forall|i: int, j: int|
        0 <= i < slots.len() && 0 <= j < slots.len() && i != j ==> slot_key(#[trigger] slots[i])
            != slot_key(#[trigger] slots[j])
}

proof fn lemma_slot_in_map<V>(slots: Seq<Slot<V>>, i: int)
    requires
        distinct_keys(slots),
        0 <= i < slots.len(),
    ensures
        slots_map(slots).contains_key(slot_key(slots[i])),
        slots_map(slots)[slot_key(slots[i])] == slots[i].value,
{
    let k = slot_key(slots[i]);
    assert(exists|j: int| 0 <= j < slots.len() && slot_key(#[trigger] slots[j]) == k) by {
        assert(slot_key(slots[i]) == k);
    }
    let j = choose|j: int| 0 <= j < slots.len() && slot_key(#[trigger] slots[j]) == k;
    assert(j == i);
}

impl<V> View for Storage<V> {
    type V = Map<(Entity, ComponentId), V>;

    closed spec fn view(&self) -> Map<(Entity, ComponentId), V> {
        slots_map(self.slots@)
    }
}

impl<V> Storage<V> {
    /// Each (entity, component type) pair is held by at most one slot.
    pub closed spec fn wf(&self) -> bool {
        distinct_keys(self.slots@)
    }

    pub open spec fn spec_has(&self, entity: Entity, component: ComponentId) -> bool {
        self@.contains_key((entity, component))
    }

    pub fn new() -> (r: Self)
        ensures
            r.wf(),
            r@ == Map::<(Entity, ComponentId), V>::empty(),
    {
        let r = Storage { slots: Vec::new() };
        assert(r@ =~= Map::<(Entity, ComponentId), V>::empty());
        r
    }

    fn find(&self, entity: Entity, component: ComponentId) -> (r: Option<usize>)
        requires
            self.wf(),
        ensures
            match r {
                Some(i) => {
                    &&& i < self.slots@.len()
                    &&& slot_key(self.slots@[i as int]) == (entity, component)
                    &&& self@.contains_key((entity, component))
                    &&& self@[(entity, component)] == self.slots@[i as int].value
                },
                None => !self@.contains_key((entity, component)),
            },
    {
        let mut i: usize = 0;
        while i < self.slots.len()
            invariant
                self.wf(),
                i <= self.slots@.len(),
                forall|j: int| 0 <= j < i ==> slot_key(#[trigger] self.slots@[j]) != (entity, component),
            decreases self.slots@.len() - i,
        {
            if self.slots[i].entity == entity && self.slots[i].component == component {
                proof {
                    lemma_slot_in_map(self.slots@, i as int);
                }
                return Some(i);
            }
            i = i + 1;
        }
        None
    }

    /// Whether the entity holds a component of the given type.
    pub fn has(&self, entity: Entity, component: ComponentId) -> (r: bool)
        requires
            self.wf(),
        ensures
            r == self.spec_has(entity, component),
    {
        self.find(entity, component).is_some()
    }

    /// The stored value, if any.
    pub fn get(&self, entity: Entity, component: ComponentId) -> (r: Option<&V>)
        requires
            self.wf(),
        ensures
            match r {
                Some(v) => self@.contains_key((entity, component)) && *v == self@[(entity, component)],
                None => !self@.contains_key((entity, component)),
            },
    {
        match self.find(entity, component) {
            Some(i) => Some(&self.slots[i].value),
            None => None,
        }
    }

    /// Exclusive access to the stored value, if any; presence is left unchanged.
    pub fn get_mut(&mut self, entity: Entity, component: ComponentId) -> (r: Option<&mut V>)
        requires
            old(self).wf(),
        ensures
            final(self).wf(),
            match r {
                Some(v) => {
                    &&& old(self)@.contains_key((entity, component))
                    &&& *v == old(self)@[(entity, component)]
                    &&& final(self)@ == old(self)@.insert((entity, component), *final(v))
                    &&& final(self)@.dom() == old(self)@.dom()
                },
                None => {
                    &&& !old(self)@.contains_key((entity, component))
                    &&& final(self)@ == old(self)@
                },
            },
    {
        match self.find(entity, component) {
            Some(i) => {
                let ghost old_slots = self.slots@;
                let slot = &mut self.slots[i];
                let value = &mut slot.value;
                proof {
                    Self::lemma_set(old_slots, i as int, Slot { entity, component, value: *final(value) });
                }
                Some(value)
            },
            None => None,
        }
    }

    proof fn lemma_set(old_slots: Seq<Slot<V>>, i: int, s: Slot<V>)
        requires
            distinct_keys(old_slots),
            0 <= i < old_slots.len(),
            slot_key(s) == slot_key(old_slots[i]),
        ensures
            distinct_keys(old_slots.update(i, s)),
            slots_map(old_slots.update(i, s)) == slots_map(old_slots).insert(slot_key(s), s.value),
            slots_map(old_slots.update(i, s)).dom() == slots_map(old_slots).dom(),
    {
        let new_slots = old_slots.update(i, s);
        assert forall|a: int, b: int|
            0 <= a < new_slots.len() && 0 <= b < new_slots.len() && a != b implies slot_key(
            #[trigger] new_slots[a],
        ) != slot_key(#[trigger] new_slots[b]) by {
            assert(slot_key(new_slots[a]) == slot_key(old_slots[a]));
            assert(slot_key(new_slots[b]) == slot_key(old_slots[b]));
        }
        let m = slots_map(old_slots).insert(slot_key(s), s.value);
        assert forall|k: (Entity, ComponentId)| #[trigger]
            slots_map(new_slots).contains_key(k) <==> m.contains_key(k) by {
            if slots_map(new_slots).contains_key(k) {
                let j = choose|j: int| 0 <= j < new_slots.len() && slot_key(#[trigger] new_slots[j]) == k;
                assert(slot_key(old_slots[j]) == k);
            }
            if m.contains_key(k) && k != slot_key(s) {
                let j = choose|j: int| 0 <= j < old_slots.len() && slot_key(#[trigger] old_slots[j]) == k;
                assert(slot_key(new_slots[j]) == k);
            }
            if k == slot_key(s) {
                assert(slot_key(new_slots[i]) == k);
            }
        }
        assert forall|k: (Entity, ComponentId)| #[trigger]
            slots_map(new_slots).contains_key(k) implies slots_map(new_slots)[k] == m[k] by {
            let j = choose|j: int| 0 <= j < new_slots.len() && slot_key(#[trigger] new_slots[j]) == k;
            lemma_slot_in_map(new_slots, j);
            if j != i {
                lemma_slot_in_map(old_slots, j);
            }
        }
        assert(slots_map(new_slots) =~= m);
        lemma_slot_in_map(old_slots, i);
        assert(m.dom() =~= slots_map(old_slots).dom());
    }

    /// Stores the value, overwriting any earlier one; returns whether one was overwritten.
    pub fn add(&mut self, entity: Entity, component: ComponentId, value: V) -> (replaced: bool)
        requires
            old(self).wf(),
        ensures
            final(self).wf(),
            replaced == old(self)@.contains_key((entity, component)),
            final(self)@ == old(self)@.insert((entity, component), value),
    {
        match self.find(entity, component) {
            Some(i) => {
                proof {
                    Self::lemma_set(self.slots@, i as int, Slot { entity, component, value });
                }
                self.slots.set(i, Slot { entity, component, value });
                true
            },
            None => {
                let ghost old_slots = self.slots@;
                let ghost m = self@.insert((entity, component), value);
                self.slots.push(Slot { entity, component, value });
                proof {
                    let n = old_slots.len() as int;
                    let new_slots = self.slots@;
                    assert forall|a: int, b: int|
                        0 <= a < new_slots.len() && 0 <= b < new_slots.len() && a != b implies slot_key(
                        #[trigger] new_slots[a],
                    ) != slot_key(#[trigger] new_slots[b]) by {
                        if a < n && b < n {
                            assert(new_slots[a] == old_slots[a]);
                            assert(new_slots[b] == old_slots[b]);
                        } else if a < n {
                            assert(new_slots[a] == old_slots[a]);
                            lemma_slot_in_map(old_slots, a);
                        } else {
                            assert(new_slots[b] == old_slots[b]);
                            lemma_slot_in_map(old_slots, b);
                        }
                    }
                    assert forall|k: (Entity, ComponentId)| #[trigger]
                        slots_map(new_slots).contains_key(k) <==> m.contains_key(k) by {
                        if slots_map(new_slots).contains_key(k) && k != (entity, component) {
                            let j = choose|j: int|
                                0 <= j < new_slots.len() && slot_key(#[trigger] new_slots[j]) == k;
                            assert(j != n);
                            assert(slot_key(old_slots[j]) == k);
                        }
                        if m.contains_key(k) && k != (entity, component) {
                            let j = choose|j: int|
                                0 <= j < old_slots.len() && slot_key(#[trigger] old_slots[j]) == k;
                            assert(slot_key(new_slots[j]) == k);
                        }
                        if k == (entity, component) {
                            assert(slot_key(new_slots[n]) == k);
                        }
                    }
                    assert forall|k: (Entity, ComponentId)| #[trigger]
                        slots_map(new_slots).contains_key(k) implies slots_map(new_slots)[k] == m[k] by {
                        let j = choose|j: int|
                            0 <= j < new_slots.len() && slot_key(#[trigger] new_slots[j]) == k;
                        lemma_slot_in_map(new_slots, j);
                        if j != n {
                            assert(new_slots[j] == old_slots[j]);
                            lemma_slot_in_map(old_slots, j);
                        }
                    }
                    assert(slots_map(new_slots) =~= m);
                }
                false
            },
        }
    }

    /// Takes the stored value out, if any.
    pub fn remove(&mut self, entity: Entity, component: ComponentId) -> (r: Option<V>)
        requires
            old(self).wf(),
        ensures
            final(self).wf(),
            final(self)@ == old(self)@.remove((entity, component)),
            match r {
                Some(v) => old(self)@.contains_key((entity, component)) && v == old(self)@[(
                    entity,
                    component,
                )],
                None => !old(self)@.contains_key((entity, component)),
            },
    {
        match self.find(entity, component) {
            Some(i) => {
                let ghost old_slots = self.slots@;
                let ghost m = self@.remove((entity, component));
                let slot = self.slots.remove(i);
                proof {
                    let ii = i as int;
                    let new_slots = self.slots@;
                    assert forall|a: int, b: int|
                        0 <= a < new_slots.len() && 0 <= b < new_slots.len() && a != b implies slot_key(
                        #[trigger] new_slots[a],
                    ) != slot_key(#[trigger] new_slots[b]) by {
                        let oa = if a < ii { a } else { a + 1 };
                        let ob = if b < ii { b } else { b + 1 };
                        assert(new_slots[a] == old_slots[oa]);
                        assert(new_slots[b] == old_slots[ob]);
                    }
                    assert forall|k: (Entity, ComponentId)| #[trigger]
                        slots_map(new_slots).contains_key(k) <==> m.contains_key(k) by {
                        if slots_map(new_slots).contains_key(k) {
                            let j = choose|j: int|
                                0 <= j < new_slots.len() && slot_key(#[trigger] new_slots[j]) == k;
                            let oj = if j < ii { j } else { j + 1 };
                            assert(new_slots[j] == old_slots[oj]);
                            assert(slot_key(old_slots[oj]) == k);
                            assert(oj != ii);
                        }
                        if m.contains_key(k) {
                            let j = choose|j: int|
                                0 <= j < old_slots.len() && slot_key(#[trigger] old_slots[j]) == k;
                            assert(j != ii);
                            let nj = if j < ii { j } else { j - 1 };
                            assert(new_slots[nj] == old_slots[j]);
                            assert(slot_key(new_slots[nj]) == k);
                        }
                    }
                    assert forall|k: (Entity, ComponentId)| #[trigger]
                        slots_map(new_slots).contains_key(k) implies slots_map(new_slots)[k] == m[k] by {
                        let j = choose|j: int|
                            0 <= j < new_slots.len() && slot_key(#[trigger] new_slots[j]) == k;
                        lemma_slot_in_map(new_slots, j);
                        let oj = if j < ii { j } else { j + 1 };
                        assert(new_slots[j] == old_slots[oj]);
                        lemma_slot_in_map(old_slots, oj);
                    }
                    assert(slots_map(new_slots) =~= m);
                }
                Some(slot.value)
            },
            None => {
                proof {
                    assert(self@.remove((entity, component)) =~= self@);
                }
                None
            },
        }
    }
}

} // verus!
