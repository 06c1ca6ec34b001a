use vstd::prelude::*;

use crate::application::Application;
use crate::entity::{ComponentId, EventId};
use crate::subscriptions::Subscriptions;

verus! {

/// The triggers a system can be registered against.
#[derive(Clone, Copy, Debug, PartialEq, Eq, Structural, Hash)]
pub enum SystemType {
    /// Runs when an entity joins the system's group.
    JOIN,
    /// Runs when an entity quits the system's group.
    QUIT,
    /// Runs once per tick over the system's group.
    TICK,
    /// Runs for each event of the given type.
    EVENT(EventId),
}

/// Collects systems, each declared by the component types it requires, and
/// the triggers each one runs on; `build` turns them into an `Application`.
pub struct ApplicationBuilder {
    systems: Vec<Vec<ComponentId>>,
    join_systems: Vec<usize>,
    quit_systems: Vec<usize>,
    tick_systems: Vec<usize>,
    event_systems: Subscriptions,
}

/// The list after registering the systems `ids`, which are above every
/// entry of `list`, when `on` tells whether they are registered.
pub open spec fn registered_all(list: Seq<usize>, ids: Seq<usize>, on: bool) -> Seq<usize> {
    if on {
        list + ids
    } else {
        list
    }
}

/// The list after registering system `id`, which is above every entry of
/// `list`, when `on` tells whether it is registered.
pub open spec fn registered(list: Seq<usize>, id: usize, on: bool) -> Seq<usize> {
    if on {
        list.push(id)
    } else {
        list
    }
}

impl ApplicationBuilder {
    pub closed spec fn n_systems(&self) -> nat {
        self.systems@.len()
    }

    /// The component types that system `s` declared.
    pub closed spec fn declared(&self, s: int) -> Seq<ComponentId> {
        self.systems@[s]@
    }

    pub closed spec fn spec_join_systems(&self) -> Seq<usize> {
        self.join_systems@
    }

    pub closed spec fn spec_quit_systems(&self) -> Seq<usize> {
        self.quit_systems@
    }

    pub closed spec fn spec_tick_systems(&self) -> Seq<usize> {
        self.tick_systems@
    }

    pub closed spec fn spec_event_systems(&self, event: EventId) -> Seq<usize> {
        self.event_systems.spec_subscribers(event)
    }

    /// Every trigger list names registered systems.
    pub closed spec fn wf(&self) -> bool {
        &&& forall|k: int| 0 <= k < self.join_systems@.len() ==> #[trigger] self.join_systems@[k] < self.systems@.len()
        &&& forall|k: int| 0 <= k < self.quit_systems@.len() ==> #[trigger] self.quit_systems@[k] < self.systems@.len()
        &&& forall|k: int| 0 <= k < self.tick_systems@.len() ==> #[trigger] self.tick_systems@[k] < self.systems@.len()
        &&& forall|ev: EventId, k: int|
            0 <= k < self.event_systems.spec_subscribers(ev).len() ==> #[trigger] self.event_systems.spec_subscribers(ev)[k]
                < self.systems@.len()
    }

    /// A builder with no systems.
    pub fn new() -> (r: Self)
        ensures
            r.wf(),
            r.n_systems() == 0,
            r.spec_join_systems() == Seq::<usize>::empty(),
            r.spec_quit_systems() == Seq::<usize>::empty(),
            r.spec_tick_systems() == Seq::<usize>::empty(),
            forall|ev: EventId| #[trigger] r.spec_event_systems(ev) == Seq::<usize>::empty(),
    {
        ApplicationBuilder {
            systems: Vec::new(),
            join_systems: Vec::new(),
            quit_systems: Vec::new(),
            tick_systems: Vec::new(),
            event_systems: Subscriptions::new(),
        }
    }

    /// Registers a system that requires the given component types, on each
    /// of the given triggers (a trigger named twice counts once). Returns the
    /// system's number: the number of systems registered before it.
    pub fn add_system(&mut self, components: Vec<ComponentId>, types: Vec<SystemType>) -> (id: usize)
        requires
            old(self).wf(),
            old(self).n_systems() < usize::MAX,
        ensures
            final(self).wf(),
            id == old(self).n_systems(),
            final(self).n_systems() == old(self).n_systems() + 1,
            forall|s: int| 0 <= s < old(self).n_systems() ==> #[trigger] final(self).declared(s) == old(self).declared(s),
            final(self).declared(id as int) == components@,
            final(self).spec_join_systems() == registered(old(self).spec_join_systems(), id, types@.contains(SystemType::JOIN)),
            final(self).spec_quit_systems() == registered(old(self).spec_quit_systems(), id, types@.contains(SystemType::QUIT)),
            final(self).spec_tick_systems() == registered(old(self).spec_tick_systems(), id, types@.contains(SystemType::TICK)),
            forall|ev: EventId| #[trigger] final(self).spec_event_systems(ev) == registered(
                old(self).spec_event_systems(ev),
                id,
                types@.contains(SystemType::EVENT(ev)),
            ),
    {
        let id = self.systems.len();
        let ghost start = *self;
        self.systems.push(components);
        let mut i: usize = 0;
        while i < types.len()
            invariant
                i <= types@.len(),
                id == start.systems@.len(),
                self.systems@ == start.systems@.push(components),
                start.wf(),
                self.wf(),
                self.join_systems@ == registered(start.join_systems@, id, types@.take(i as int).contains(SystemType::JOIN)),
                self.quit_systems@ == registered(start.quit_systems@, id, types@.take(i as int).contains(SystemType::QUIT)),
                self.tick_systems@ == registered(start.tick_systems@, id, types@.take(i as int).contains(SystemType::TICK)),
                forall|ev: EventId| #[trigger] self.event_systems.spec_subscribers(ev) == registered(
                    start.event_systems.spec_subscribers(ev),
                    id,
                    types@.take(i as int).contains(SystemType::EVENT(ev)),
                ),
            decreases types@.len() - i,
        {
            let t = types[i];
            proof {
                assert(types@.take(i as int + 1) == types@.take(i as int).push(t));
                assert forall|x: SystemType| #[trigger] types@.take(i as int + 1).contains(x) == (types@.take(i as int).contains(x)
                    || x == t) by {
                    if types@.take(i as int + 1).contains(x) && x != t {
                        let k = choose|k: int| 0 <= k < i + 1 && #[trigger] types@.take(i as int + 1)[k] == x;
                        assert(types@.take(i as int)[k] == x);
                    }
                    if x == t {
                        assert(types@.take(i as int + 1)[i as int] == x);
                    }
                    if types@.take(i as int).contains(x) {
                        let k = choose|k: int| 0 <= k < i && #[trigger] types@.take(i as int)[k] == x;
                        assert(types@.take(i as int + 1)[k] == x);
                    }
                }
            }
            match t {
                SystemType::JOIN => {
                    push_once(&mut self.join_systems, id);
                },
                SystemType::QUIT => {
                    push_once(&mut self.quit_systems, id);
                },
                SystemType::TICK => {
                    push_once(&mut self.tick_systems, id);
                },
                SystemType::EVENT(ev) => {
                    self.event_systems.subscribe(ev, id);
                    proof {
                        let before = start.event_systems.spec_subscribers(ev);
                        if before.len() > 0 {
                            assert(before[before.len() - 1] < id);
                        }
                    }
                },
            }
            i = i + 1;
        }
        proof {
            assert(types@.take(types@.len() as int) == types@);
        }
        id
    }

    /// Registers each of the systems in turn, on the same triggers; returns
    /// their numbers.
    pub fn add_systems(&mut self, systems: Vec<Vec<ComponentId>>, types: Vec<SystemType>) -> (ids: Vec<usize>)
        requires
            old(self).wf(),
            old(self).n_systems() + systems@.len() < usize::MAX,
        ensures
            final(self).wf(),
            final(self).n_systems() == old(self).n_systems() + systems@.len(),
            ids@.len() == systems@.len(),
            forall|k: int| 0 <= k < systems@.len() ==> #[trigger] ids@[k] == old(self).n_systems() + k,
            forall|k: int| 0 <= k < systems@.len() ==> #[trigger] final(self).declared(old(self).n_systems() + k) == systems@[k]@,
            forall|s: int| 0 <= s < old(self).n_systems() ==> #[trigger] final(self).declared(s) == old(self).declared(s),
            final(self).spec_join_systems() == registered_all(old(self).spec_join_systems(), ids@, types@.contains(SystemType::JOIN)),
            final(self).spec_quit_systems() == registered_all(old(self).spec_quit_systems(), ids@, types@.contains(SystemType::QUIT)),
            final(self).spec_tick_systems() == registered_all(old(self).spec_tick_systems(), ids@, types@.contains(SystemType::TICK)),
            forall|ev: EventId| #[trigger] final(self).spec_event_systems(ev) == registered_all(
                old(self).spec_event_systems(ev),
                ids@,
                types@.contains(SystemType::EVENT(ev)),
            ),
    {
        let ghost start = *self;
        let mut ids: Vec<usize> = Vec::new();
        let mut i: usize = 0;
        while i < systems.len()
            invariant
                self.wf(),
                i <= systems@.len(),
                start.n_systems() + systems@.len() < usize::MAX,
                self.n_systems() == start.n_systems() + i,
                ids@.len() == i,
                forall|k: int| 0 <= k < i ==> #[trigger] ids@[k] == start.n_systems() + k,
                forall|k: int| 0 <= k < i ==> #[trigger] self.declared(start.n_systems() + k) == systems@[k]@,
                forall|s: int| 0 <= s < start.n_systems() ==> #[trigger] self.declared(s) == start.declared(s),
                self.spec_join_systems() == registered_all(start.spec_join_systems(), ids@, types@.contains(SystemType::JOIN)),
                self.spec_quit_systems() == registered_all(start.spec_quit_systems(), ids@, types@.contains(SystemType::QUIT)),
                self.spec_tick_systems() == registered_all(start.spec_tick_systems(), ids@, types@.contains(SystemType::TICK)),
                forall|ev: EventId| #[trigger] self.spec_event_systems(ev) == registered_all(
                    start.spec_event_systems(ev),
                    ids@,
                    types@.contains(SystemType::EVENT(ev)),
                ),
            decreases systems@.len() - i,
        {
            let ghost before = *self;
            let ghost old_ids = ids@;
            let id = self.add_system(systems[i].clone(), copy_types(&types));
            ids.push(id);
            proof {
                assert forall|l: Seq<usize>| #[trigger] (l + old_ids).push(id) == l + ids@ by {
                    assert((l + old_ids).push(id) =~= l + ids@);
                }
                assert forall|ev: EventId| #[trigger] self.spec_event_systems(ev) == registered_all(
                    start.spec_event_systems(ev),
                    ids@,
                    types@.contains(SystemType::EVENT(ev)),
                ) by {
                    assert(before.spec_event_systems(ev) == registered_all(
                        start.spec_event_systems(ev),
                        old_ids,
                        types@.contains(SystemType::EVENT(ev)),
                    ));
                }
            }
            i = i + 1;
        }
        ids
    }

    /// The application for the registered systems.
    pub fn build<V, E>(self) -> (r: Application<V, E>)
        requires
            self.wf(),
        ensures
            r.wf(),
            r.components() == Map::<(crate::entity::Entity, ComponentId), V>::empty(),
            r.spec_next() == 0,
            r.spec_events() == Seq::<(EventId, E)>::empty(),
            r.spec_transitions() == Seq::<crate::application::Transition>::empty(),
            r.n_systems() == self.n_systems(),
            forall|s: int| 0 <= s < self.n_systems() ==> #[trigger] r.system_requirement(s) == crate::fast_storage::id_set(
                self.declared(s),
            ),
            forall|s: int|
                0 <= s < self.n_systems() ==> #[trigger] r.spec_group_of(s) < r.n_groups() && r.requirement(r.spec_group_of(s))
                    == crate::fast_storage::id_set(self.declared(s)),
            forall|g: int| 0 <= g < r.n_groups() ==> #[trigger] r.serves_some_system(g),
            forall|g: int, h: int|
                0 <= g < r.n_groups() && 0 <= h < r.n_groups() && g != h ==> #[trigger] r.requirement(g) != #[trigger] r.requirement(h),
            forall|g: int| 0 <= g < r.n_groups() ==> (#[trigger] r.members(g)).len() == 0,
            r.spec_join_systems() == self.spec_join_systems(),
            r.spec_quit_systems() == self.spec_quit_systems(),
            r.spec_tick_systems() == self.spec_tick_systems(),
            forall|ev: EventId| #[trigger] r.spec_event_systems(ev) == self.spec_event_systems(ev),
    {
        Application::new(self.systems, self.join_systems, self.quit_systems, self.tick_systems, self.event_systems)
    }
}

/// A copy of the list of triggers.
fn copy_types(types: &Vec<SystemType>) -> (r: Vec<SystemType>)
    ensures
        r@ == types@,
{
    let mut r: Vec<SystemType> = Vec::new();
    let mut i: usize = 0;
    while i < types.len()
        invariant
            i <= types@.len(),
            r@ == types@.take(i as int),
        decreases types@.len() - i,
    {
        r.push(types[i]);
        proof {
            assert(types@.take(i as int + 1) == types@.take(i as int).push(types@[i as int]));
        }
        i = i + 1;
    }
    proof {
        assert(types@.take(types@.len() as int) == types@);
    }
    r
}

/// Appends `id` unless it is already the last entry.
fn push_once(list: &mut Vec<usize>, id: usize)
    ensures
        final(list)@ == if old(list)@.len() > 0 && old(list)@.last() == id {
            old(list)@
        } else {
            old(list)@.push(id)
        },
{
    let n = list.len();
    if n > 0 && list[n - 1] == id {
        return;
    }
    list.push(id);
}

} // verus!
