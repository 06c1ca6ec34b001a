use vstd::prelude::*;

use crate::entity::{ComponentId, Entity, EventId};
use crate::fast_storage::{id_set, list_contains, FastStorage};
use crate::storage::Storage;
use crate::subscriptions::Subscriptions;

verus! {

/// A change of an entity's membership in a group: it joined, or it quit.
pub struct Transition {
    pub group: usize,
    pub entity: Entity,
    pub joined: bool,
}

/// Whether `s` reports, for entity `e`, exactly the groups below `n` whose
/// membership changed from `was` to `now`: each once, in group order, with
/// `joined` telling the new membership.
pub open spec fn reports(
    s: Seq<Transition>,
    n: nat,
    e: Entity,
    was: spec_fn(int) -> bool,
    now: spec_fn(int) -> bool,
) -> bool {
    &&& forall|k: int|
        0 <= k < s.len() ==> {
            &&& (#[trigger] s[k]).entity == e
            &&& s[k].group < n
            &&& was(s[k].group as int) != now(s[k].group as int)
            &&& s[k].joined == now(s[k].group as int)
        }
    &&& forall|k: int, l: int| 0 <= k < l < s.len() ==> (#[trigger] s[k]).group < (#[trigger] s[l]).group
    &&& forall|g: int|
        0 <= g < n && #[trigger] was(g) != now(g) ==> exists|k: int| 0 <= k < s.len() && (#[trigger] s[k]).group == g
}

proof fn lemma_reports_congruent(
    s: Seq<Transition>,
    n: nat,
    e: Entity,
    was1: spec_fn(int) -> bool,
    now1: spec_fn(int) -> bool,
    was2: spec_fn(int) -> bool,
    now2: spec_fn(int) -> bool,
)
    requires
        reports(s, n, e, was1, now1),
        forall|g: int| 0 <= g < n ==> #[trigger] was1(g) == was2(g) && now1(g) == now2(g),
    ensures
        reports(s, n, e, was2, now2),
{
    assert forall|g: int| 0 <= g < n && #[trigger] was2(g) != now2(g) implies exists|k: int|
        0 <= k < s.len() && (#[trigger] s[k]).group == g by {
        assert(was1(g) == was2(g));
    }
    assert forall|k: int| 0 <= k < s.len() implies {
        &&& (#[trigger] s[k]).entity == e
        &&& s[k].group < n
        &&& was2(s[k].group as int) != now2(s[k].group as int)
        &&& s[k].joined == now2(s[k].group as int)
    } by {
        assert(was1(s[k].group as int) == was2(s[k].group as int));
    }
}

/// Every stored key names a spawned entity, every system has a group, and
/// every trigger list names registered systems.
pub open spec fn tables_ok(
    present: Set<(Entity, ComponentId)>,
    groups: FastStorage,
    next: u64,
    system_groups: Seq<usize>,
    join_systems: Seq<usize>,
    quit_systems: Seq<usize>,
    tick_systems: Seq<usize>,
    event_systems: Subscriptions,
) -> bool {
    &&& groups.wf()
    &&& forall|k: (Entity, ComponentId)| #[trigger] present.contains(k) ==> k.0 < next
    &&& forall|s: int| 0 <= s < system_groups.len() ==> #[trigger] system_groups[s] < groups.spec_len()
    &&& forall|k: int| 0 <= k < join_systems.len() ==> #[trigger] join_systems[k] < system_groups.len()
    &&& forall|k: int| 0 <= k < quit_systems.len() ==> #[trigger] quit_systems[k] < system_groups.len()
    &&& forall|k: int| 0 <= k < tick_systems.len() ==> #[trigger] tick_systems[k] < system_groups.len()
    &&& forall|ev: EventId, k: int|
        0 <= k < event_systems.spec_subscribers(ev).len() ==> #[trigger] event_systems.spec_subscribers(ev)[k]
            < system_groups.len()
}

/// Whether the entity is spawned and every component type that group `g`
/// requires is present for it.
pub open spec fn admitted(
    groups: FastStorage,
    present: Set<(Entity, ComponentId)>,
    next: u64,
    g: int,
    e: Entity,
) -> bool {
    &&& e < next
    &&& forall|c: ComponentId| #[trigger] groups.requirement(g).contains(c) ==> present.contains((e, c))
}

/// Each group's members are exactly the entities it admits.
pub open spec fn memberships_exact(groups: FastStorage, present: Set<(Entity, ComponentId)>, next: u64) -> bool {
    forall|g: int, e: Entity|
        0 <= g < groups.spec_len() ==> (#[trigger] groups.members(g).contains(e) <==> admitted(
            groups,
            present,
            next,
            g,
            e,
        ))
}

/// The components after a conditional add: the value is stored only where
/// no value of its type was there.
pub open spec fn after_try_add<V>(
    m: Map<(Entity, ComponentId), V>,
    k: (Entity, ComponentId),
    v: V,
) -> Map<(Entity, ComponentId), V> {
    if m.contains_key(k) {
        m
    } else {
        m.insert(k, v)
    }
}

/// The runtime: component storage, groups with their memberships, the
/// systems registered against each trigger, the event queue, and the
/// membership changes not yet taken by the caller.
pub struct Application<V, E> {
    storage: Storage<V>,
    groups: FastStorage,
    next: u64,
    system_components: Vec<Vec<ComponentId>>,
    system_groups: Vec<usize>,
    join_systems: Vec<usize>,
    quit_systems: Vec<usize>,
    tick_systems: Vec<usize>,
    event_systems: Subscriptions,
    events: Vec<(EventId, E)>,
    transitions: Vec<Transition>,
}

impl<V, E> Application<V, E> {
    /// The stored components, keyed by (entity, component type).
    pub closed spec fn components(&self) -> Map<(Entity, ComponentId), V> {
        self.storage@
    }

    /// The number of entities spawned so far; they are `0 .. spec_next()`.
    pub closed spec fn spec_next(&self) -> nat {
        self.next as nat
    }

    pub closed spec fn n_groups(&self) -> nat {
        self.groups.spec_len()
    }

    pub closed spec fn requirement(&self, g: int) -> Set<ComponentId> {
        self.groups.requirement(g)
    }

    pub closed spec fn members(&self, g: int) -> Seq<Entity> {
        self.groups.members(g)
    }

    /// Membership changes that have not been taken yet, oldest first.
    pub closed spec fn spec_transitions(&self) -> Seq<Transition> {
        self.transitions@
    }

    /// The event queue, oldest first.
    pub closed spec fn spec_events(&self) -> Seq<(EventId, E)> {
        self.events@
    }

    pub closed spec fn n_systems(&self) -> nat {
        self.system_groups@.len()
    }

    pub closed spec fn spec_group_of(&self, s: int) -> int {
        self.system_groups@[s] as int
    }

    /// The component types that system `s` declared.
    pub closed spec fn system_requirement(&self, s: int) -> Set<ComponentId> {
        id_set(self.system_components@[s]@)
    }

    /// Whether some system has group `g`.
    pub open spec fn serves_some_system(&self, g: int) -> bool {
        exists|s: int| 0 <= s < self.n_systems() && #[trigger] self.spec_group_of(s) == g
    }

    /// The tick systems of group `g`, in registration order.
    pub open spec fn tick_systems_of(&self, g: int) -> Seq<usize> {
        self.spec_tick_systems().filter(|s: usize| self.spec_group_of(s as int) == g)
    }

    /// The tick systems of the groups below `n`: group by group, each group's
    /// in registration order.
    pub open spec fn tick_order(&self, n: nat) -> Seq<usize>
        decreases n,
    {
        if n == 0 {
            Seq::empty()
        } else {
            self.tick_order((n - 1) as nat) + self.tick_systems_of(n - 1)
        }
    }

    pub closed spec fn spec_join_systems(&self) -> Seq<usize> {
        self.join_systems@
    }

    pub closed spec fn spec_quit_systems(&self) -> Seq<usize> {
        self.quit_systems@
    }

    pub closed spec fn spec_tick_systems(&self) -> Seq<usize> {
        self.tick_systems@
    }

    pub closed spec fn spec_event_systems(&self, event: EventId) -> Seq<usize> {
        self.event_systems.spec_subscribers(event)
    }

    /// Whether the entity is spawned and holds every component that group `g`
    /// requires (see `lemma_admits`).
    pub closed spec fn admits(&self, g: int, e: Entity) -> bool {
        admitted(self.groups, self.storage@.dom(), self.next, g, e)
    }

    /// Whether the entity holds a component of the given type.
    pub open spec fn spec_has(&self, e: Entity, c: ComponentId) -> bool {
        self.components().contains_key((e, c))
    }

    /// Everything but the group memberships is consistent.
    closed spec fn wf_tables(&self) -> bool {
        &&& self.storage.wf()
        &&& self.system_components@.len() == self.system_groups@.len()
        &&& forall|s: int|
            0 <= s < self.system_groups@.len() ==> #[trigger] self.groups.requirement(self.system_groups@[s] as int)
                == id_set(self.system_components@[s]@)
        &&& tables_ok(
            self.storage@.dom(),
            self.groups,
            self.next,
            self.system_groups@,
            self.join_systems@,
            self.quit_systems@,
            self.tick_systems@,
            self.event_systems,
        )
    }

    /// The tables are consistent, and each group's members are exactly the
    /// entities it admits.
    pub closed spec fn wf(&self) -> bool {
        &&& self.wf_tables()
        &&& memberships_exact(self.groups, self.storage@.dom(), self.next)
    }

    /// Group `g` admits an entity exactly when the entity has been spawned
    /// and holds every component type that the group requires.
    pub proof fn lemma_admits(&self, g: int, e: Entity)
        ensures
            self.admits(g, e) <==> (e < self.spec_next() && forall|c: ComponentId| #[trigger]
                self.requirement(g).contains(c) ==> self.spec_has(e, c)),
    {
        if self.admits(g, e) {
            assert forall|c: ComponentId| #[trigger] self.requirement(g).contains(c) implies self.spec_has(e, c) by {
                assert(self.groups.requirement(g).contains(c));
                assert(self.storage@.dom().contains((e, c)));
            }
        }
        if e < self.spec_next() && forall|c: ComponentId| #[trigger] self.requirement(g).contains(c) ==> self.spec_has(e, c) {
            assert forall|c: ComponentId| #[trigger] self.groups.requirement(g).contains(c) implies self.storage@.dom().contains(
                (e, c),
            ) by {
                assert(self.requirement(g).contains(c));
                assert(self.spec_has(e, c));
            }
            assert(admitted(self.groups, self.storage@.dom(), self.next, g, e));
        }
    }

    proof fn lemma_wf_members(&self)
        requires
            self.wf(),
        ensures
            forall|g: int, e: Entity|
                0 <= g < self.n_groups() ==> (#[trigger] self.members(g).contains(e) <==> self.admits(g, e)),
    {
        assert forall|g: int, e: Entity| 0 <= g < self.n_groups() implies (#[trigger] self.members(g).contains(e)
            <==> self.admits(g, e)) by {
            assert(self.groups.members(g).contains(e) <==> admitted(self.groups, self.storage@.dom(), self.next, g, e));
        }
    }

    proof fn lemma_wf_intro(&self)
        requires
            self.wf_tables(),
            forall|g: int, e: Entity|
                0 <= g < self.n_groups() ==> (#[trigger] self.members(g).contains(e) <==> self.admits(g, e)),
        ensures
            self.wf(),
    {
        assert forall|g: int, e: Entity| 0 <= g < self.groups.spec_len() implies (#[trigger] self.groups.members(g).contains(e)
            <==> admitted(self.groups, self.storage@.dom(), self.next, g, e)) by {
            assert(self.members(g).contains(e) <==> self.admits(g, e));
        }
    }

    /// Whether the entity holds every component that group `g` requires.
    fn all_present(&self, g: usize, entity: Entity) -> (r: bool)
        requires
            self.wf_tables(),
            g < self.n_groups(),
        ensures
            r == self.admits(g as int, entity),
    {
        if entity >= self.next {
            return false;
        }
        let req = self.groups.requirement_of(g);
        let mut i: usize = 0;
        while i < req.len()
            invariant
                self.wf_tables(),
                g < self.n_groups(),
                entity < self.next,
                id_set(req@) == self.requirement(g as int),
                i <= req@.len(),
                forall|j: int| 0 <= j < i ==> self.storage@.contains_key((entity, #[trigger] req@[j])),
            decreases req@.len() - i,
        {
            if !self.storage.has(entity, req[i]) {
                assert(self.requirement(g as int).contains(req@[i as int]));
                return false;
            }
            i = i + 1;
        }
        assert forall|c: ComponentId| #[trigger] self.requirement(g as int).contains(c) implies self.components().contains_key(
            (entity, c),
        ) by {
            assert(id_set(req@).contains(c));
            let j = choose|j: int| 0 <= j < req@.len() && req@[j] == c;
        }
        true
    }

    /// Whether group `g` requires the component type.
    fn requires_component(&self, g: usize, c: ComponentId) -> (r: bool)
        requires
            g < self.n_groups(),
        ensures
            r == self.requirement(g as int).contains(c),
    {
        list_contains(self.groups.requirement_of(g), c)
    }

    /// Brings the entity's memberships up to date after its components
    /// changed, recording each change. With `only == Some(c)`, only groups
    /// that require `c` are looked at: the others are known to be current.
    fn refresh(&mut self, entity: Entity, only: Option<ComponentId>)
        requires
            old(self).wf_tables(),
            forall|g: int, e: Entity|
                0 <= g < old(self).n_groups() && e != entity ==> (#[trigger] old(self).members(g).contains(e)
                    <==> old(self).admits(g, e)),
            only matches Some(c) ==> forall|g: int|
                0 <= g < old(self).n_groups() && !(#[trigger] old(self).requirement(g)).contains(c) ==> (
                old(self).members(g).contains(entity) <==> old(self).admits(g, entity)),
        ensures
            final(self).wf(),
            final(self).components() == old(self).components(),
            final(self).spec_next() == old(self).spec_next(),
            final(self).n_groups() == old(self).n_groups(),
            forall|g: int| 0 <= g < old(self).n_groups() ==> #[trigger] final(self).requirement(g) == old(self).requirement(g),
            final(self).n_systems() == old(self).n_systems(),
            forall|s: int| 0 <= s < old(self).n_systems() ==> #[trigger] final(self).spec_group_of(s) == old(self).spec_group_of(s),
            final(self).spec_join_systems() == old(self).spec_join_systems(),
            final(self).spec_quit_systems() == old(self).spec_quit_systems(),
            final(self).spec_tick_systems() == old(self).spec_tick_systems(),
            final(self).event_systems == old(self).event_systems,
            final(self).system_components == old(self).system_components,
            final(self).spec_events() == old(self).spec_events(),
            final(self).spec_transitions().take(old(self).spec_transitions().len() as int) == old(self).spec_transitions(),
            final(self).spec_transitions().len() >= old(self).spec_transitions().len(),
            reports(
                final(self).spec_transitions().skip(old(self).spec_transitions().len() as int),
                old(self).n_groups(),
                entity,
                |g: int| old(self).members(g).contains(entity),
                |g: int| old(self).admits(g, entity),
            ),
    {
        let ghost start = *self;
        let ghost old_t = self.transitions@;
        let ghost was = |g: int| start.members(g).contains(entity);
        let ghost now = |g: int| start.admits(g, entity);
        let ghost mut s: Seq<Transition> = Seq::empty();
        let n = self.groups.len();
        let mut g: usize = 0;
        while g < n
            invariant
                n == start.n_groups(),
                g <= n,
                was == (|h: int| start.members(h).contains(entity)),
                now == (|h: int| start.admits(h, entity)),
                only matches Some(c) ==> forall|h: int|
                    0 <= h < n && !(#[trigger] start.requirement(h)).contains(c) ==> (start.members(h).contains(
                    entity) <==> start.admits(h, entity)),
                self.wf_tables(),
                self.storage == start.storage,
                self.next == start.next,
                self.system_groups == start.system_groups,
                self.system_components == start.system_components,
                self.join_systems == start.join_systems,
                self.quit_systems == start.quit_systems,
                self.tick_systems == start.tick_systems,
                self.event_systems == start.event_systems,
                self.events == start.events,
                self.groups.spec_len() == n,
                forall|h: int| 0 <= h < n ==> #[trigger] self.requirement(h) == start.requirement(h),
                forall|h: int, e: Entity|
                    0 <= h < n && e != entity ==> (#[trigger] self.members(h).contains(e) <==> start.admits(h, e)),
                forall|h: int| 0 <= h < g ==> (#[trigger] self.members(h).contains(entity) <==> start.admits(h, entity)),
                forall|h: int| g <= h < n ==> #[trigger] self.members(h) == start.members(h),
                self.transitions@ == old_t + s,
                forall|k: int|
                    0 <= k < s.len() ==> {
                        &&& (#[trigger] s[k]).entity == entity
                        &&& s[k].group < g
                        &&& was(s[k].group as int) != now(s[k].group as int)
                        &&& s[k].joined == now(s[k].group as int)
                    },
                forall|k: int, l: int| 0 <= k < l < s.len() ==> (#[trigger] s[k]).group < (#[trigger] s[l]).group,
                forall|h: int|
                    0 <= h < g && #[trigger] was(h) != now(h) ==> exists|k: int| 0 <= k < s.len() && (#[trigger] s[k]).group == h,
            decreases n - g,
        {
            let relevant = match only {
                Some(c) => self.requires_component(g, c),
                None => true,
            };
            let ghost before = *self;
            let ghost s_before = s;
            assert(before.members(g as int) == start.members(g as int));
            assert(before.requirement(g as int) == start.requirement(g as int));
            assert(before.admits(g as int, entity) == start.admits(g as int, entity));
            if relevant {
                let present = self.all_present(g, entity);
                let member = self.groups.is_member(g, entity);
                if present && !member {
                    self.groups.join(g, entity);
                    proof {
                        let old_m = before.members(g as int);
                        let new_m = self.members(g as int);
                        assert(new_m == old_m.push(entity));
                        assert(new_m[old_m.len() as int] == entity);
                        assert forall|e: Entity| e != entity implies new_m.contains(e) == old_m.contains(e) by {
                            if old_m.contains(e) {
                                let k = choose|k: int| 0 <= k < old_m.len() && old_m[k] == e;
                                assert(new_m[k] == e);
                            }
                            if new_m.contains(e) {
                                let k = choose|k: int| 0 <= k < new_m.len() && new_m[k] == e;
                                assert(old_m[k] == e);
                            }
                        }
                    }
                    assert(self.members(g as int).contains(entity));
                    let t = Transition { group: g, entity, joined: true };
                    self.transitions.push(t);
                    proof {
                        s = s.push(t);
                    }
                } else if !present && member {
                    self.groups.quit(g, entity);
                    assert(!self.members(g as int).contains(entity));
                    let t = Transition { group: g, entity, joined: false };
                    self.transitions.push(t);
                    proof {
                        s = s.push(t);
                    }
                } else {
                    assert(self.members(g as int) == before.members(g as int));
                }
            } else {
                proof {
                    let c = only.unwrap();
                    assert(!start.requirement(g as int).contains(c));
                    assert(start.members(g as int).contains(entity) <==> start.admits(g as int, entity));
                }
            }
            proof {
                assert(was(g as int) == start.members(g as int).contains(entity));
                assert(now(g as int) == start.admits(g as int, entity));
                assert(s_before.is_prefix_of(s));
                assert forall|h: int| 0 <= h < n implies #[trigger] self.requirement(h) == start.requirement(h) by {
                    assert(self.groups.requirement(h) == before.groups.requirement(h));
                    assert(before.requirement(h) == start.requirement(h));
                }
                assert forall|h: int| 0 <= h < g + 1 implies (#[trigger] self.members(h).contains(entity)
                    <==> start.admits(h, entity)) by {
                    if h < g {
                        assert(self.members(h) == before.members(h));
                    }
                }
                assert forall|h: int| g + 1 <= h < n implies #[trigger] self.members(h) == start.members(h) by {
                    assert(self.members(h) == before.members(h));
                }
                assert forall|h: int, e: Entity|
                    0 <= h < n && e != entity implies (#[trigger] self.members(h).contains(e) <==> start.admits(h, e)) by {
                    assert(before.members(h).contains(e) <==> start.admits(h, e));
                    if h != g {
                        assert(self.members(h) == before.members(h));
                    }
                }
                if was(g as int) != now(g as int) {
                    assert(s[s.len() - 1].group == g);
                }
                assert forall|h: int| 0 <= h < g + 1 && #[trigger] was(h) != now(h) implies exists|k: int|
                    0 <= k < s.len() && (#[trigger] s[k]).group == h by {
                    if h == g {
                        assert(s[s.len() - 1].group == h);
                    } else {
                        let k = choose|k: int| 0 <= k < s_before.len() && (#[trigger] s_before[k]).group == h;
                        assert(s[k] == s_before[k]);
                    }
                }
            }
            g = g + 1;
        }
        proof {
            assert forall|h: int, e: Entity|
                0 <= h < self.n_groups() implies (#[trigger] self.members(h).contains(e) <==> self.admits(h, e)) by {
                assert(self.requirement(h) == start.requirement(h));
                assert(self.admits(h, e) == start.admits(h, e));
            }
            self.lemma_wf_intro();
            assert(self.transitions@.take(old_t.len() as int) =~= old_t);
            assert(self.transitions@.skip(old_t.len() as int) =~= s);
        }
    }

    /// The groups and the registered systems with their triggers are the
    /// same in both states.
    pub open spec fn same_setup(before: &Self, after: &Self) -> bool {
        &&& after.n_groups() == before.n_groups()
        &&& forall|g: int| 0 <= g < before.n_groups() ==> #[trigger] after.requirement(g) == before.requirement(g)
        &&& after.n_systems() == before.n_systems()
        &&& forall|s: int| 0 <= s < before.n_systems() ==> #[trigger] after.system_requirement(s) == before.system_requirement(s)
        &&& forall|s: int| 0 <= s < before.n_systems() ==> #[trigger] after.spec_group_of(s) == before.spec_group_of(s)
        &&& after.spec_join_systems() == before.spec_join_systems()
        &&& after.spec_quit_systems() == before.spec_quit_systems()
        &&& after.spec_tick_systems() == before.spec_tick_systems()
        &&& forall|ev: EventId| #[trigger] after.spec_event_systems(ev) == before.spec_event_systems(ev)
    }

    /// The transitions recorded from `before` to `after` are exactly the
    /// changes of the entity's memberships, appended to the earlier ones.
    pub open spec fn records_changes(before: &Self, after: &Self, e: Entity) -> bool {
        let s = after.spec_transitions().skip(before.spec_transitions().len() as int);
        &&& after.spec_transitions().len() >= before.spec_transitions().len()
        &&& after.spec_transitions().take(before.spec_transitions().len() as int) == before.spec_transitions()
        &&& forall|k: int|
            0 <= k < s.len() ==> {
                &&& (#[trigger] s[k]).entity == e
                &&& s[k].group < before.n_groups()
                &&& before.admits(s[k].group as int, e) != after.admits(s[k].group as int, e)
                &&& s[k].joined == after.admits(s[k].group as int, e)
            }
        &&& forall|k: int, l: int| 0 <= k < l < s.len() ==> (#[trigger] s[k]).group < (#[trigger] s[l]).group
        &&& forall|g: int|
            0 <= g < before.n_groups() && #[trigger] before.admits(g, e) != after.admits(g, e) ==> exists|k: int|
                0 <= k < s.len() && (#[trigger] s[k]).group == g
    }

    proof fn lemma_records(before: &Self, after: &Self, e: Entity)
        requires
            after.spec_transitions().len() >= before.spec_transitions().len(),
            after.spec_transitions().take(before.spec_transitions().len() as int) == before.spec_transitions(),
            reports(
                after.spec_transitions().skip(before.spec_transitions().len() as int),
                before.n_groups(),
                e,
                |g: int| before.admits(g, e),
                |g: int| after.admits(g, e),
            ),
        ensures
            Self::records_changes(before, after, e),
    {
        let s = after.spec_transitions().skip(before.spec_transitions().len() as int);
        let was = |g: int| before.admits(g, e);
        let now = |g: int| after.admits(g, e);
        assert forall|g: int|
            0 <= g < before.n_groups() && #[trigger] before.admits(g, e) != after.admits(g, e) implies exists|k: int|
            0 <= k < s.len() && (#[trigger] s[k]).group == g by {
            assert(was(g) != now(g));
        }
    }

    /// Issues a new entity, one above every earlier one. Groups that
    /// require nothing admit it at once, and record that it joined them.
    pub fn spawn(&mut self) -> (r: Entity)
        requires
            old(self).wf(),
            old(self).spec_next() < u64::MAX,
        ensures
            final(self).wf(),
            r == old(self).spec_next(),
            final(self).spec_next() == old(self).spec_next() + 1,
            forall|c: ComponentId| !final(self).spec_has(r, c),
            final(self).components() == old(self).components(),
            Self::same_setup(old(self), final(self)),
            final(self).spec_events() == old(self).spec_events(),
            Self::records_changes(old(self), final(self), r),
    {
        let entity = self.next;
        self.next = self.next + 1;
        let ghost mid = *self;
        proof {
            old(self).lemma_wf_members();
            assert forall|g: int, e: Entity|
                0 <= g < mid.n_groups() && e != entity implies (#[trigger] mid.members(g).contains(e)
                <==> mid.admits(g, e)) by {
                assert(old(self).members(g).contains(e) <==> old(self).admits(g, e));
                assert(mid.members(g) == old(self).members(g));
                assert(mid.requirement(g) == old(self).requirement(g));
                assert(mid.components() == old(self).components());
                assert(mid.admits(g, e) == old(self).admits(g, e));
            }
            assert forall|g: int| 0 <= g < mid.n_groups() implies !(#[trigger] mid.members(g)).contains(entity) by {
                assert(old(self).members(g).contains(entity) <==> old(self).admits(g, entity));
                assert(mid.members(g) == old(self).members(g));
            }
        }
        self.refresh(entity, None);
        proof {
            assert forall|g: int| 0 <= g < mid.n_groups() implies #[trigger] mid.members(g).contains(entity)
                == old(self).admits(g, entity) && mid.admits(g, entity) == final(self).admits(g, entity) by {
                assert(final(self).requirement(g) == mid.requirement(g));
            }
            lemma_reports_congruent(
                final(self).spec_transitions().skip(old(self).spec_transitions().len() as int),
                mid.n_groups(),
                entity,
                |g: int| mid.members(g).contains(entity),
                |g: int| mid.admits(g, entity),
                |g: int| old(self).admits(g, entity),
                |g: int| final(self).admits(g, entity),
            );
            Self::lemma_records(old(self), final(self), entity);
        }
        entity
    }

    /// Brings the memberships up to date after the presence of one component
    /// changed from the consistent state `before`.
    fn commit(&mut self, entity: Entity, component: ComponentId, Ghost(before): Ghost<Self>)
        requires
            before.wf(),
            old(self).wf_tables(),
            old(self).groups == before.groups,
            old(self).next == before.next,
            old(self).system_groups == before.system_groups,
            old(self).system_components == before.system_components,
            old(self).join_systems == before.join_systems,
            old(self).quit_systems == before.quit_systems,
            old(self).tick_systems == before.tick_systems,
            old(self).event_systems == before.event_systems,
            old(self).events == before.events,
            old(self).transitions == before.transitions,
            forall|k: (Entity, ComponentId)|
                k != (entity, component) ==> (#[trigger] old(self).components().contains_key(k)
                    == before.components().contains_key(k)),
        ensures
            final(self).wf(),
            final(self).components() == old(self).components(),
            final(self).spec_next() == before.spec_next(),
            final(self).spec_events() == before.spec_events(),
            Self::same_setup(&before, final(self)),
            Self::records_changes(&before, final(self), entity),
    {
        let ghost mid = *self;
        proof {
            before.lemma_wf_members();
            assert forall|g: int, e: Entity|
                0 <= g < mid.n_groups() && e != entity implies (#[trigger] mid.members(g).contains(e)
                <==> mid.admits(g, e)) by {
                assert(before.members(g).contains(e) <==> before.admits(g, e));
                assert(mid.members(g) == before.members(g));
                assert(mid.requirement(g) == before.requirement(g));
                assert forall|c: ComponentId| #[trigger] mid.requirement(g).contains(c) implies (
                mid.components().contains_key((e, c)) == before.components().contains_key((e, c))) by {
                    assert(mid.components().contains_key((e, c)) == before.components().contains_key((e, c)));
                }
                assert(mid.admits(g, e) == before.admits(g, e));
            }
            assert forall|g: int|
                0 <= g < mid.n_groups() && !(#[trigger] mid.requirement(g)).contains(component) implies (
                mid.members(g).contains(entity) <==> mid.admits(g, entity)) by {
                assert(before.members(g).contains(entity) <==> before.admits(g, entity));
                assert(mid.members(g) == before.members(g));
                assert(mid.requirement(g) == before.requirement(g));
                assert forall|c: ComponentId| #[trigger] mid.requirement(g).contains(c) implies (
                mid.components().contains_key((entity, c)) == before.components().contains_key((entity, c))) by {
                    assert(c != component);
                    assert(mid.components().contains_key((entity, c)) == before.components().contains_key((entity, c)));
                }
                assert(mid.admits(g, entity) == before.admits(g, entity));
            }
        }
        self.refresh(entity, Some(component));
        proof {
            before.lemma_wf_members();
            assert forall|g: int| 0 <= g < mid.n_groups() implies #[trigger] mid.members(g).contains(entity)
                == before.admits(g, entity) && mid.admits(g, entity) == final(self).admits(g, entity) by {
                assert(before.members(g).contains(entity) <==> before.admits(g, entity));
                assert(final(self).requirement(g) == mid.requirement(g));
            }
            lemma_reports_congruent(
                final(self).spec_transitions().skip(before.spec_transitions().len() as int),
                mid.n_groups(),
                entity,
                |g: int| mid.members(g).contains(entity),
                |g: int| mid.admits(g, entity),
                |g: int| before.admits(g, entity),
                |g: int| final(self).admits(g, entity),
            );
            Self::lemma_records(&before, final(self), entity);
        }
    }

    /// Stores the component value, overwriting any earlier one of its type,
    /// and records the entity's membership changes. Returns whether a value
    /// was overwritten.
    pub fn add_component(&mut self, entity: Entity, component: ComponentId, value: V) -> (replaced: bool)
        requires
            old(self).wf(),
            entity < old(self).spec_next(),
        ensures
            final(self).wf(),
            replaced == old(self).spec_has(entity, component),
            final(self).components() == old(self).components().insert((entity, component), value),
            final(self).spec_next() == old(self).spec_next(),
            final(self).spec_events() == old(self).spec_events(),
            Self::same_setup(old(self), final(self)),
            Self::records_changes(old(self), final(self), entity),
    {
        let ghost before = *self;
        let replaced = self.storage.add(entity, component, value);
        self.commit(entity, component, Ghost(before));
        replaced
    }

    /// Stores the component value unless the entity already holds one of
    /// its type; returns whether it was stored.
    pub fn try_add_component(&mut self, entity: Entity, component: ComponentId, value: V) -> (added: bool)
        requires
            old(self).wf(),
            entity < old(self).spec_next(),
        ensures
            final(self).wf(),
            added == !old(self).spec_has(entity, component),
            final(self).components() == after_try_add(old(self).components(), (entity, component), value),
            !added ==> final(self).spec_transitions() == old(self).spec_transitions(),
            final(self).spec_next() == old(self).spec_next(),
            final(self).spec_events() == old(self).spec_events(),
            Self::same_setup(old(self), final(self)),
            Self::records_changes(old(self), final(self), entity),
    {
        if self.storage.has(entity, component) {
            proof {
                assert(self.transitions@.skip(self.transitions@.len() as int) =~= Seq::<Transition>::empty());
                assert(self.transitions@.take(self.transitions@.len() as int) =~= self.transitions@);
            }
            return false;
        }
        self.add_component(entity, component, value);
        true
    }

    /// Takes the component value out, if the entity holds one of that type,
    /// and records the entity's membership changes.
    pub fn try_remove_get_component(&mut self, entity: Entity, component: ComponentId) -> (r: Option<V>)
        requires
            old(self).wf(),
        ensures
            final(self).wf(),
            match r {
                Some(v) => old(self).spec_has(entity, component) && v == old(self).components()[(entity, component)],
                None => !old(self).spec_has(entity, component),
            },
            final(self).components() == old(self).components().remove((entity, component)),
            r is None ==> final(self).spec_transitions() == old(self).spec_transitions(),
            final(self).spec_next() == old(self).spec_next(),
            final(self).spec_events() == old(self).spec_events(),
            Self::same_setup(old(self), final(self)),
            Self::records_changes(old(self), final(self), entity),
    {
        let ghost before = *self;
        let r = self.storage.remove(entity, component);
        if r.is_some() {
            self.commit(entity, component, Ghost(before));
        } else {
            proof {
                assert(self.transitions@.skip(self.transitions@.len() as int) =~= Seq::<Transition>::empty());
                assert(self.transitions@.take(self.transitions@.len() as int) =~= self.transitions@);
                assert(self.components() =~= before.components());
                before.lemma_wf_members();
                assert forall|g: int, e: Entity| 0 <= g < self.n_groups() implies (#[trigger] self.members(g).contains(e)
                    <==> self.admits(g, e)) by {
                    assert(before.members(g).contains(e) <==> before.admits(g, e));
                    assert(self.requirement(g) == before.requirement(g));
                    assert(self.members(g) == before.members(g));
                    assert(self.admits(g, e) == before.admits(g, e));
                }
                self.lemma_wf_intro();
                assert forall|g: int| 0 <= g < self.n_groups() implies #[trigger] before.admits(g, entity) == self.admits(g, entity) by {
                    assert(self.requirement(g) == before.requirement(g));
                }
            }
        }
        r
    }

    /// Removes the component, if the entity holds one of that type; returns
    /// whether it did.
    pub fn try_remove_component(&mut self, entity: Entity, component: ComponentId) -> (removed: bool)
        requires
            old(self).wf(),
        ensures
            final(self).wf(),
            removed == old(self).spec_has(entity, component),
            final(self).components() == old(self).components().remove((entity, component)),
            !removed ==> final(self).spec_transitions() == old(self).spec_transitions(),
            final(self).spec_next() == old(self).spec_next(),
            final(self).spec_events() == old(self).spec_events(),
            Self::same_setup(old(self), final(self)),
            Self::records_changes(old(self), final(self), entity),
    {
        self.try_remove_get_component(entity, component).is_some()
    }

    /// The entity's component of the given type, if it holds one.
    pub fn try_get_component(&self, entity: Entity, component: ComponentId) -> (r: Option<&V>)
        requires
            self.wf(),
        ensures
            match r {
                Some(v) => self.spec_has(entity, component) && *v == self.components()[(entity, component)],
                None => !self.spec_has(entity, component),
            },
    {
        self.storage.get(entity, component)
    }

    /// Exclusive access to the entity's component of the given type, if it
    /// holds one. Only the value can change through it.
    pub fn try_get_component_mut(&mut self, entity: Entity, component: ComponentId) -> (r: Option<&mut V>)
        requires
            old(self).wf(),
        ensures
            final(self).wf(),
            final(self).spec_next() == old(self).spec_next(),
            final(self).spec_events() == old(self).spec_events(),
            final(self).spec_transitions() == old(self).spec_transitions(),
            Self::same_setup(old(self), final(self)),
            forall|g: int| 0 <= g < old(self).n_groups() ==> #[trigger] final(self).members(g) == old(self).members(g),
            forall|g: int, e: Entity| #[trigger] final(self).admits(g, e) == old(self).admits(g, e),
            match r {
                Some(v) => {
                    &&& old(self).spec_has(entity, component)
                    &&& *v == old(self).components()[(entity, component)]
                    &&& final(self).components() == old(self).components().insert((entity, component), *final(v))
                },
                None => {
                    &&& !old(self).spec_has(entity, component)
                    &&& final(self).components() == old(self).components()
                },
            },
    {
        let ghost before = *self;
        let r = self.storage.get_mut(entity, component);
        r
    }

    /// Stores the value unless the entity already holds a component of its
    /// type, then gives exclusive access to the entity's component of that
    /// type: the new one, or the one it already had.
    pub fn add_get_or_get_component(&mut self, entity: Entity, component: ComponentId, value: V) -> (r: &mut V)
        requires
            old(self).wf(),
            entity < old(self).spec_next(),
        ensures
            final(self).wf(),
            *r == if old(self).spec_has(entity, component) {
                old(self).components()[(entity, component)]
            } else {
                value
            },
            final(self).components() == old(self).components().insert((entity, component), *final(r)),
            final(self).spec_next() == old(self).spec_next(),
            final(self).spec_events() == old(self).spec_events(),
            Self::same_setup(old(self), final(self)),
            Self::records_changes(old(self), final(self), entity),
    {
        let ghost before = *self;
        self.try_add_component(entity, component, value);
        let ghost mid = *self;
        self.try_get_component_mut(entity, component).unwrap()
    }

    /// The members of group `g`, in the order in which they joined.
    pub fn view(&self, g: usize) -> (r: &Vec<Entity>)
        requires
            self.wf(),
            g < self.n_groups(),
        ensures
            r@ == self.members(g as int),
    {
        self.groups.view(g)
    }

    /// One decision of the run loop, on times in microseconds since the run
    /// began: `None` to stop, when a close was asked for or `limit` has
    /// elapsed; otherwise the time since the previous tick, never negative.
    pub fn run(&self, limit: u64, elapsed: u64, previous: u64, close_requested: bool) -> (r: Option<u64>)
        ensures
            r == if close_requested || elapsed >= limit {
                None::<u64>
            } else if elapsed >= previous {
                Some((elapsed - previous) as u64)
            } else {
                Some(0u64)
            },
    {
        if close_requested || elapsed >= limit {
            None
        } else if elapsed >= previous {
            Some(elapsed - previous)
        } else {
            Some(0)
        }
    }

    /// The entity the next spawn will issue: entities below it are spawned.
    pub fn next_entity(&self) -> (r: Entity)
        ensures
            r == self.spec_next(),
    {
        self.next
    }

    /// The number of groups.
    pub fn group_count(&self) -> (r: usize)
        ensures
            r == self.n_groups(),
    {
        self.groups.len()
    }

    /// The group of system `s`.
    pub fn group_of(&self, s: usize) -> (r: usize)
        requires
            self.wf(),
            s < self.n_systems(),
        ensures
            r == self.spec_group_of(s as int),
            r < self.n_groups(),
            self.requirement(r as int) == self.system_requirement(s as int),
    {
        self.system_groups[s]
    }

    /// Queues an event of the given type, behind every event queued before.
    pub fn send_event(&mut self, event: EventId, value: E)
        requires
            old(self).wf(),
        ensures
            final(self).wf(),
            final(self).spec_events() == old(self).spec_events().push((event, value)),
            final(self).components() == old(self).components(),
            final(self).spec_next() == old(self).spec_next(),
            final(self).spec_transitions() == old(self).spec_transitions(),
            Self::same_setup(old(self), final(self)),
            forall|g: int| 0 <= g < old(self).n_groups() ==> #[trigger] final(self).members(g) == old(self).members(g),
    {
        self.events.push((event, value));
    }

    /// Takes every queued event, oldest first, and leaves the queue empty:
    /// events sent from now on wait for the next drain.
    pub fn drain_events(&mut self) -> (r: Vec<(EventId, E)>)
        requires
            old(self).wf(),
        ensures
            final(self).wf(),
            r@ == old(self).spec_events(),
            final(self).spec_events() == Seq::<(EventId, E)>::empty(),
            final(self).components() == old(self).components(),
            final(self).spec_next() == old(self).spec_next(),
            final(self).spec_transitions() == old(self).spec_transitions(),
            Self::same_setup(old(self), final(self)),
            forall|g: int| 0 <= g < old(self).n_groups() ==> #[trigger] final(self).members(g) == old(self).members(g),
    {
        let mut r = Vec::new();
        std::mem::swap(&mut r, &mut self.events);
        r
    }

    /// Takes every recorded membership change, oldest first.
    pub fn take_transitions(&mut self) -> (r: Vec<Transition>)
        requires
            old(self).wf(),
        ensures
            final(self).wf(),
            r@ == old(self).spec_transitions(),
            final(self).spec_transitions() == Seq::<Transition>::empty(),
            final(self).components() == old(self).components(),
            final(self).spec_next() == old(self).spec_next(),
            final(self).spec_events() == old(self).spec_events(),
            Self::same_setup(old(self), final(self)),
            forall|g: int| 0 <= g < old(self).n_groups() ==> #[trigger] final(self).members(g) == old(self).members(g),
    {
        let mut r = Vec::new();
        std::mem::swap(&mut r, &mut self.transitions);
        r
    }

    /// Sets up the runtime for the systems declared by their component
    /// types: one group per distinct requirement set, shared by every system
    /// that declares it, and the systems registered for each trigger.
    pub fn new(
        systems: Vec<Vec<ComponentId>>,
        join_systems: Vec<usize>,
        quit_systems: Vec<usize>,
        tick_systems: Vec<usize>,
        event_systems: Subscriptions,
    ) -> (r: Self)
        requires
            forall|k: int| 0 <= k < join_systems@.len() ==> #[trigger] join_systems@[k] < systems@.len(),
            forall|k: int| 0 <= k < quit_systems@.len() ==> #[trigger] quit_systems@[k] < systems@.len(),
            forall|k: int| 0 <= k < tick_systems@.len() ==> #[trigger] tick_systems@[k] < systems@.len(),
            forall|ev: EventId, k: int|
                0 <= k < event_systems.spec_subscribers(ev).len() ==> #[trigger] event_systems.spec_subscribers(ev)[k]
                    < systems@.len(),
        ensures
            r.wf(),
            r.components() == Map::<(Entity, ComponentId), V>::empty(),
            r.spec_next() == 0,
            r.spec_events() == Seq::<(EventId, E)>::empty(),
            r.spec_transitions() == Seq::<Transition>::empty(),
            r.n_systems() == systems@.len(),
            forall|s: int| 0 <= s < systems@.len() ==> #[trigger] r.system_requirement(s) == id_set(systems@[s]@),
            forall|s: int|
                0 <= s < systems@.len() ==> #[trigger] r.spec_group_of(s) < r.n_groups() && r.requirement(r.spec_group_of(s))
                    == id_set(systems@[s]@),
            forall|g: int| 0 <= g < r.n_groups() ==> #[trigger] r.serves_some_system(g),
            forall|g: int, h: int|
                0 <= g < r.n_groups() && 0 <= h < r.n_groups() && g != h ==> #[trigger] r.requirement(g) != #[trigger] r.requirement(h),
            forall|g: int| 0 <= g < r.n_groups() ==> (#[trigger] r.members(g)).len() == 0,
            r.spec_join_systems() == join_systems@,
            r.spec_quit_systems() == quit_systems@,
            r.spec_tick_systems() == tick_systems@,
            forall|ev: EventId| #[trigger] r.spec_event_systems(ev) == event_systems.spec_subscribers(ev),
    {
        let groups = FastStorage::new(systems.clone());
        let mut system_groups: Vec<usize> = Vec::new();
        let mut i: usize = 0;
        while i < systems.len()
            invariant
                groups.wf(),
                i <= systems@.len(),
                system_groups@.len() == i,
                forall|d: int| 0 <= d < systems@.len() ==> groups.has_group(id_set(#[trigger] systems@[d]@)),
                forall|s: int|
                    0 <= s < i ==> #[trigger] system_groups@[s] < groups.spec_len() && groups.requirement(
                        system_groups@[s] as int,
                    ) == id_set(systems@[s]@),
            decreases systems@.len() - i,
        {
            let found = groups.find_group(&systems[i]);
            match found {
                Some(g) => {
                    system_groups.push(g);
                },
                None => {
                    proof {
                        assert(groups.has_group(id_set(systems@[i as int]@)));
                    }
                    system_groups.push(0);
                },
            }
            i = i + 1;
        }
        let r = Application {
            storage: Storage::new(),
            groups,
            next: 0,
            system_components: systems,
            system_groups,
            join_systems,
            quit_systems,
            tick_systems,
            event_systems,
            events: Vec::new(),
            transitions: Vec::new(),
        };
        proof {
            assert forall|g: int, e: Entity| 0 <= g < r.n_groups() implies (#[trigger] r.members(g).contains(e)
                <==> r.admits(g, e)) by {
                assert(r.members(g).len() == 0);
            }
            r.lemma_wf_intro();
            assert forall|g: int| 0 <= g < r.n_groups() implies #[trigger] r.serves_some_system(g) by {
                assert(crate::fast_storage::in_descriptor(r.system_components@, r.groups.requirement(g)));
                let d = choose|d: int|
                    0 <= d < r.system_components@.len() && id_set(#[trigger] r.system_components@[d]@) == r.groups.requirement(g);
                let gd = r.system_groups@[d] as int;
                assert(r.groups.requirement(gd) == id_set(r.system_components@[d]@));
                if gd != g {
                    r.groups.lemma_distinct(gd, g);
                }
                assert(r.spec_group_of(d) == g);
            }
            assert forall|g: int, h: int|
                0 <= g < r.n_groups() && 0 <= h < r.n_groups() && g != h implies #[trigger] r.requirement(g)
                != #[trigger] r.requirement(h) by {
                r.groups.lemma_distinct(g, h);
            }
        }
        r
    }

    /// The systems of `list` whose group is `g`, in their order in `list`.
    fn systems_in_group(&self, list: &Vec<usize>, g: usize) -> (r: Vec<usize>)
        requires
            self.wf(),
            forall|k: int| 0 <= k < list@.len() ==> #[trigger] list@[k] < self.n_systems(),
        ensures
            r@ == list@.filter(|s: usize| self.spec_group_of(s as int) == g),
    {
        let ghost pred = |s: usize| self.spec_group_of(s as int) == g;
        let mut r: Vec<usize> = Vec::new();
        let mut i: usize = 0;
        while i < list.len()
            invariant
                self.wf(),
                forall|k: int| 0 <= k < list@.len() ==> #[trigger] list@[k] < self.n_systems(),
                pred == (|s: usize| self.spec_group_of(s as int) == g),
                i <= list@.len(),
                r@ == list@.take(i as int).filter(pred),
            decreases list@.len() - i,
        {
            let s = list[i];
            proof {
                assert(list@.take(i as int + 1) == list@.take(i as int).push(s));
                list@.take(i as int).lemma_filter_push(s, pred);
            }
            if self.system_groups[s] == g {
                r.push(s);
            }
            i = i + 1;
        }
        proof {
            assert(list@.take(list@.len() as int) == list@);
        }
        r
    }

    /// The join systems of group `g`, in registration order.
    pub fn join_systems_of(&self, g: usize) -> (r: Vec<usize>)
        requires
            self.wf(),
        ensures
            r@ == self.spec_join_systems().filter(|s: usize| self.spec_group_of(s as int) == g),
    {
        self.systems_in_group(&self.join_systems, g)
    }

    /// The quit systems of group `g`, in registration order.
    pub fn quit_systems_of(&self, g: usize) -> (r: Vec<usize>)
        requires
            self.wf(),
        ensures
            r@ == self.spec_quit_systems().filter(|s: usize| self.spec_group_of(s as int) == g),
    {
        self.systems_in_group(&self.quit_systems, g)
    }

    /// The systems subscribed to the event type, in registration order.
    pub fn event_systems_of(&self, event: EventId) -> (r: Vec<usize>)
        ensures
            r@ == self.spec_event_systems(event),
    {
        self.event_systems.subscribers(event)
    }

    /// The tick systems in the order in which a tick runs them: group by
    /// group in group order, and within a group in registration order.
    pub fn tick_schedule(&self) -> (r: Vec<usize>)
        requires
            self.wf(),
        ensures
            r@ == self.tick_order(self.n_groups()),
    {
        let n = self.groups.len();
        let mut r: Vec<usize> = Vec::new();
        let mut g: usize = 0;
        while g < n
            invariant
                self.wf(),
                n == self.n_groups(),
                g <= n,
                r@ == self.tick_order(g as nat),
            decreases n - g,
        {
            let part = self.systems_in_group(&self.tick_systems, g);
            r.extend_from_slice(part.as_slice());
            g = g + 1;
        }
        r
    }

    /// Between mutations, each group's members are exactly the spawned
    /// entities that hold every component type the group requires.
    pub proof fn lemma_membership_exact(&self, g: int, e: Entity)
        requires
            self.wf(),
            0 <= g < self.n_groups(),
        ensures
            self.members(g).contains(e) <==> (e < self.spec_next() && forall|c: ComponentId| #[trigger]
                self.requirement(g).contains(c) ==> self.spec_has(e, c)),
    {
        self.lemma_wf_members();
        self.lemma_admits(g, e);
    }

    /// Only spawned entities hold components.
    pub proof fn lemma_has_spawned(&self, e: Entity, c: ComponentId)
        requires
            self.wf(),
            self.spec_has(e, c),
        ensures
            e < self.spec_next(),
    {
        assert(self.storage@.dom().contains((e, c)));
    }

    /// Distinct groups have distinct requirement sets.
    pub proof fn lemma_groups_distinct(&self, g: int, h: int)
        requires
            self.wf(),
            0 <= g < self.n_groups(),
            0 <= h < self.n_groups(),
            g != h,
        ensures
            self.requirement(g) != self.requirement(h),
    {
        self.groups.lemma_distinct(g, h);
    }

    /// Systems share a group exactly when they declared the same set of
    /// component types.
    pub proof fn lemma_shared_group(&self, s: int, t: int)
        requires
            self.wf(),
            0 <= s < self.n_systems(),
            0 <= t < self.n_systems(),
        ensures
            (self.spec_group_of(s) == self.spec_group_of(t)) <==> (self.system_requirement(s) == self.system_requirement(t)),
    {
        assert(self.groups.requirement(self.system_groups@[s] as int) == id_set(self.system_components@[s]@));
        assert(self.groups.requirement(self.system_groups@[t] as int) == id_set(self.system_components@[t]@));
        let gs = self.system_groups@[s] as int;
        let gt = self.system_groups@[t] as int;
        assert(gs < self.groups.spec_len() && gt < self.groups.spec_len());
        if gs != gt {
            self.groups.lemma_distinct(gs, gt);
        }
    }

    /// Adding the last missing component of a group's requirement records
    /// exactly one change for that group, a join; adding a component that a
    /// group does not require records none for it.
    pub proof fn lemma_join_on_add(before: &Self, after: &Self, e: Entity, c: ComponentId, v: V, g: int)
        requires
            before.wf(),
            after.wf(),
            e < before.spec_next(),
            after.spec_next() == before.spec_next(),
            after.components() == before.components().insert((e, c), v),
            Self::same_setup(before, after),
            Self::records_changes(before, after, e),
            0 <= g < before.n_groups(),
        ensures
            ({
                let s = after.spec_transitions().skip(before.spec_transitions().len() as int);
                &&& (before.requirement(g).contains(c) && !before.spec_has(e, c) && forall|d: ComponentId|
                    #[trigger] before.requirement(g).contains(d) && d != c ==> before.spec_has(e, d)) ==> exists|k: int|
                    0 <= k < s.len() && s[k].group == g && s[k].joined && forall|l: int|
                        0 <= l < s.len() && #[trigger] s[l].group == g ==> l == k
                &&& !before.requirement(g).contains(c) ==> forall|l: int| 0 <= l < s.len() ==> #[trigger] s[l].group != g
            }),
    {
        let s = after.spec_transitions().skip(before.spec_transitions().len() as int);
        before.lemma_admits(g, e);
        after.lemma_admits(g, e);
        assert(after.requirement(g) == before.requirement(g));
        if before.requirement(g).contains(c) && !before.spec_has(e, c) && forall|d: ComponentId|
            #[trigger] before.requirement(g).contains(d) && d != c ==> before.spec_has(e, d) {
            assert(!before.admits(g, e));
            assert forall|d: ComponentId| #[trigger] after.requirement(g).contains(d) implies after.spec_has(e, d) by {
                if d != c {
                    assert(before.spec_has(e, d));
                }
            }
            assert(after.admits(g, e));
            let k = choose|k: int| 0 <= k < s.len() && (#[trigger] s[k]).group == g;
            assert forall|l: int| 0 <= l < s.len() && #[trigger] s[l].group == g implies l == k by {
                if l < k {
                    assert(s[l].group < s[k].group);
                } else if k < l {
                    assert(s[k].group < s[l].group);
                }
            }
        }
        if !before.requirement(g).contains(c) {
            assert forall|l: int| 0 <= l < s.len() implies #[trigger] s[l].group != g by {
                if s[l].group == g {
                    assert forall|d: ComponentId| #[trigger] before.requirement(g).contains(d) implies (before.spec_has(e, d)
                        == after.spec_has(e, d)) by {
                    }
                    assert(before.admits(g, e) == after.admits(g, e));
                }
            }
        }
    }

    /// Removing a component that a group requires, from an entity the group
    /// admits, records exactly one change for that group, a quit.
    pub proof fn lemma_quit_on_remove(before: &Self, after: &Self, e: Entity, c: ComponentId, g: int)
        requires
            before.wf(),
            after.wf(),
            after.spec_next() == before.spec_next(),
            after.components() == before.components().remove((e, c)),
            Self::same_setup(before, after),
            Self::records_changes(before, after, e),
            0 <= g < before.n_groups(),
            before.requirement(g).contains(c),
            before.members(g).contains(e),
        ensures
            ({
                let s = after.spec_transitions().skip(before.spec_transitions().len() as int);
                exists|k: int|
                    0 <= k < s.len() && s[k].group == g && !s[k].joined && forall|l: int|
                        0 <= l < s.len() && #[trigger] s[l].group == g ==> l == k
            }),
    {
        let s = after.spec_transitions().skip(before.spec_transitions().len() as int);
        before.lemma_wf_members();
        assert(before.admits(g, e));
        after.lemma_admits(g, e);
        assert(after.requirement(g) == before.requirement(g));
        assert(!after.spec_has(e, c));
        assert(!after.admits(g, e));
        let k = choose|k: int| 0 <= k < s.len() && (#[trigger] s[k]).group == g;
        assert forall|l: int| 0 <= l < s.len() && #[trigger] s[l].group == g implies l == k by {
            if l < k {
                assert(s[l].group < s[k].group);
            } else if k < l {
                assert(s[k].group < s[l].group);
            }
        }
    }
}

/// A second conditional add of the same component type to the same entity
/// reports failure and leaves the components as the first one left them.
pub proof fn lemma_try_add_idempotent<V>(m: Map<(Entity, ComponentId), V>, k: (Entity, ComponentId), v: V, w: V)
    ensures
        after_try_add(m, k, v).contains_key(k),
        after_try_add(after_try_add(m, k, v), k, w) == after_try_add(m, k, v),
{
}

/// Removing a component type right after adding a value of it gives that
/// value back and leaves the type absent for the entity.
pub proof fn lemma_add_remove_round_trip<V>(m: Map<(Entity, ComponentId), V>, k: (Entity, ComponentId), v: V)
    ensures
        m.insert(k, v).contains_key(k),
        m.insert(k, v)[k] == v,
        !m.insert(k, v).remove(k).contains_key(k),
{
}

} // verus!
