use vstd::prelude::*;

use crate::entity::{ComponentId, Entity};

verus! {

/// The set of component types a list of identifiers names.
pub open spec fn id_set(ids: Seq<ComponentId>) -> Set<ComponentId> {
    Set::new(|c: ComponentId| ids.contains(c))
}

/// Whether a list holds the given identifier.
pub fn list_contains(ids: &Vec<u64>, x: u64) -> (r: bool)
    ensures
        r == ids@.contains(x),
{
    let mut i: usize = 0;
    while i < ids.len()
        invariant
            i <= ids@.len(),
            forall|j: int| 0 <= j < i ==> ids@[j] != x,
        decreases ids@.len() - i,
    {
        if ids[i] == x {
            return true;
        }
        i = i + 1;
    }
    false
}

/// Whether every identifier of `a` is in `b`.
fn list_subset(a: &Vec<u64>, b: &Vec<u64>) -> (r: bool)
    ensures
        r == (forall|c: u64| a@.contains(c) ==> b@.contains(c)),
{
    let mut i: usize = 0;
    while i < a.len()
        invariant
            i <= a@.len(),
            forall|j: int| 0 <= j < i ==> b@.contains(#[trigger] a@[j]),
        decreases a@.len() - i,
    {
        if !list_contains(b, a[i]) {
            return false;
        }
        i = i + 1;
    }
    true
}

/// Whether two lists name the same set of component types.
pub fn same_set(a: &Vec<u64>, b: &Vec<u64>) -> (r: bool)
    ensures
        r == (id_set(a@) == id_set(b@)),
{
    let r = list_subset(a, b) && list_subset(b, a);
    proof {
        if r {
            assert(id_set(a@) =~= id_set(b@));
        } else if id_set(a@) == id_set(b@) {
            assert forall|c: u64| a@.contains(c) implies b@.contains(c) by {
                assert(id_set(a@).contains(c));
            }
            assert forall|c: u64| b@.contains(c) implies a@.contains(c) by {
                assert(id_set(b@).contains(c));
            }
        }
    }
    r
}

/// Whether some entry of the descriptor names the set.
pub open spec fn in_descriptor(descriptor: Seq<Vec<ComponentId>>, s: Set<ComponentId>) -> bool {
    exists|d: int| 0 <= d < descriptor.len() && id_set(#[trigger] descriptor[d]@) == s
}

/// The groups of an application: one per distinct requirement set, each
/// with the list of entities that currently satisfy it.
pub struct FastStorage {
    requirements: Vec<Vec<ComponentId>>,
    entities: Vec<Vec<Entity>>,
}

impl FastStorage {
    /// The number of groups.
    pub closed spec fn spec_len(&self) -> nat {
        self.requirements@.len()
    }

    /// The requirement set of group `g`.
    pub closed spec fn requirement(&self, g: int) -> Set<ComponentId> {
        id_set(self.requirements@[g]@)
    }

    /// The members of group `g`, in the order in which they joined.
    pub closed spec fn members(&self, g: int) -> Seq<Entity> {
        self.entities@[g]@
    }

    /// Whether some group has the set as its requirement.
    pub open spec fn has_group(&self, s: Set<ComponentId>) -> bool {
        exists|g: int| 0 <= g < self.spec_len() && #[trigger] self.requirement(g) == s
    }

    /// One member list per group; no two groups share a requirement set; no
    /// member is listed twice.
    pub closed spec fn wf(&self) -> bool {
        &&& self.entities@.len() == self.requirements@.len()
        &&& forall|g: int, h: int|
            0 <= g < self.spec_len() && 0 <= h < self.spec_len() && g != h ==> self.requirement(g)
                != self.requirement(h)
        &&& forall|g: int| 0 <= g < self.spec_len() ==> (#[trigger] self.members(g)).no_duplicates()
    }

    /// Distinct groups have distinct requirement sets.
    pub proof fn lemma_distinct(&self, g: int, h: int)
        requires
            self.wf(),
            0 <= g < self.spec_len(),
            0 <= h < self.spec_len(),
            g != h,
        ensures
            self.requirement(g) != self.requirement(h),
    {
    }

    /// One group per distinct requirement set of the descriptor, each with no
    /// members yet.
    pub fn new(descriptor: Vec<Vec<ComponentId>>) -> (r: Self)
        ensures
            r.wf(),
            forall|d: int| 0 <= d < descriptor@.len() ==> r.has_group(id_set(#[trigger] descriptor@[d]@)),
            forall|g: int| 0 <= g < r.spec_len() ==> in_descriptor(descriptor@, #[trigger] r.requirement(g)),
            forall|g: int| 0 <= g < r.spec_len() ==> (#[trigger] r.members(g)).len() == 0,
    {
        let mut r = FastStorage { requirements: Vec::new(), entities: Vec::new() };
        let mut d: usize = 0;
        while d < descriptor.len()
            invariant
                r.wf(),
                d <= descriptor@.len(),
                forall|k: int| 0 <= k < d ==> r.has_group(id_set(#[trigger] descriptor@[k]@)),
                forall|g: int| 0 <= g < r.spec_len() ==> in_descriptor(descriptor@, #[trigger] r.requirement(g)),
                forall|g: int| 0 <= g < r.spec_len() ==> (#[trigger] r.members(g)).len() == 0,
            decreases descriptor@.len() - d,
        {
            let found = r.find_group(&descriptor[d]);
            if found.is_none() {
                let ghost old_r = r;
                r.requirements.push(descriptor[d].clone());
                r.entities.push(Vec::new());
                proof {
                    let n = old_r.spec_len() as int;
                    assert(r.requirement(n) == id_set(descriptor@[d as int]@));
                    assert forall|g: int| 0 <= g < n implies r.requirement(g) == old_r.requirement(g)
                        && r.members(g) == old_r.members(g) by {
                        assert(r.requirements@[g] == old_r.requirements@[g]);
                        assert(r.entities@[g] == old_r.entities@[g]);
                    }
                    assert forall|k: int| 0 <= k <= d implies r.has_group(
                        id_set(#[trigger] descriptor@[k]@),
                    ) by {
                        if k < d {
                            assert(old_r.has_group(id_set(descriptor@[k]@)));
                            let g = choose|g: int|
                                0 <= g < old_r.spec_len() && #[trigger] old_r.requirement(g) == id_set(
                                    descriptor@[k]@,
                                );
                            assert(r.requirement(g) == old_r.requirement(g));
                        } else {
                            assert(r.requirement(n) == id_set(descriptor@[k]@));
                        }
                    }
                    assert forall|g: int| 0 <= g < r.spec_len() implies in_descriptor(
                        descriptor@,
                        #[trigger] r.requirement(g),
                    ) by {
                        if g < n {
                            assert(in_descriptor(descriptor@, old_r.requirement(g)));
                        } else {
                            assert(id_set(descriptor@[d as int]@) == r.requirement(g));
                        }
                    }
                    assert(r.members(n) =~= Seq::<Entity>::empty());
                }
            }
            d = d + 1;
        }
        r
    }

    /// The number of groups.
    pub fn len(&self) -> (r: usize)
        ensures
            r == self.spec_len(),
    {
        self.requirements.len()
    }

    /// The group whose requirement set the list names, if there is one.
    pub fn find_group(&self, components: &Vec<ComponentId>) -> (r: Option<usize>)
        requires
            self.wf(),
        ensures
            match r {
                Some(g) => g < self.spec_len() && self.requirement(g as int) == id_set(components@),
                None => forall|g: int|
                    0 <= g < self.spec_len() ==> self.requirement(g) != id_set(components@),
            },
    {
        let mut g: usize = 0;
        while g < self.requirements.len()
            invariant
                g <= self.spec_len(),
                forall|h: int| 0 <= h < g ==> self.requirement(h) != id_set(components@),
            decreases self.spec_len() - g,
        {
            if same_set(&self.requirements[g], components) {
                return Some(g);
            }
            g = g + 1;
        }
        None
    }

    /// The component types group `g` requires.
    pub fn requirement_of(&self, g: usize) -> (r: &Vec<ComponentId>)
        requires
            g < self.spec_len(),
        ensures
            id_set(r@) == self.requirement(g as int),
    {
        &self.requirements[g]
    }

    /// The members of group `g`, in joining order.
    pub fn view(&self, g: usize) -> (r: &Vec<Entity>)
        requires
            self.wf(),
            g < self.spec_len(),
        ensures
            r@ == self.members(g as int),
    {
        &self.entities[g]
    }

    /// Whether the entity is a member of group `g`.
    pub fn is_member(&self, g: usize, entity: Entity) -> (r: bool)
        requires
            self.wf(),
            g < self.spec_len(),
        ensures
            r == self.members(g as int).contains(entity),
    {
        list_contains(&self.entities[g], entity)
    }

    /// Appends a new member to group `g`.
    pub fn join(&mut self, g: usize, entity: Entity)
        requires
            old(self).wf(),
            g < old(self).spec_len(),
            !old(self).members(g as int).contains(entity),
        ensures
            final(self).wf(),
            final(self).spec_len() == old(self).spec_len(),
            forall|h: int| 0 <= h < final(self).spec_len() ==> final(self).requirement(h) == old(self).requirement(h),
            final(self).members(g as int) == old(self).members(g as int).push(entity),
            forall|h: int| 0 <= h < final(self).spec_len() && h != g ==> final(self).members(h) == old(self).members(h),
    {
        let ghost old_self = *self;
        let mut list = self.entities[g].clone();
        let ghost before = list@;
        list.push(entity);
        proof {
            assert(before.no_duplicates());
            assert forall|a: int, b: int|
                0 <= a < list@.len() && 0 <= b < list@.len() && a != b implies list@[a] != list@[b] by {
                if a < before.len() && b < before.len() {
                } else if a < before.len() {
                    assert(before.contains(list@[a]));
                } else {
                    assert(before.contains(list@[b]));
                }
            }
        }
        self.entities.set(g, list);
        proof {
            assert(self.requirements@ == old_self.requirements@);
            assert forall|a: int, b: int|
                0 <= a < self.spec_len() && 0 <= b < self.spec_len() && a != b implies self.requirement(a)
                != self.requirement(b) by {
                assert(old_self.requirement(a) != old_self.requirement(b));
            }
            assert forall|h: int| 0 <= h < self.spec_len() implies (#[trigger] self.members(h)).no_duplicates() by {
                if h != g {
                    assert(self.members(h) == old_self.members(h));
                } else {
                    assert(old_self.members(h).no_duplicates());
                }
            }
        }
    }

    /// Removes a member from group `g`, keeping the order of the others.
    pub fn quit(&mut self, g: usize, entity: Entity)
        requires
            old(self).wf(),
            g < old(self).spec_len(),
        ensures
            final(self).wf(),
            final(self).spec_len() == old(self).spec_len(),
            forall|h: int| 0 <= h < final(self).spec_len() ==> final(self).requirement(h) == old(self).requirement(h),
            forall|x: Entity| #[trigger] final(self).members(g as int).contains(x) <==> (old(self).members(
                g as int,
            ).contains(x) && x != entity),
            forall|h: int| 0 <= h < final(self).spec_len() && h != g ==> final(self).members(h) == old(self).members(h),
    {
        let ghost old_self = *self;
        let mut list = self.entities[g].clone();
        let ghost old_list = list@;
        assert(old_list == old_self.members(g as int));
        let mut i: usize = 0;
        while i < list.len() && list[i] != entity
            invariant
                list@ == old_list,
                0 <= i <= list@.len(),
                forall|j: int| 0 <= j < i ==> list@[j] != entity,
            decreases list@.len() - i,
        {
            i = i + 1;
        }
        if i < list.len() {
            assert(list@.no_duplicates());
            list.remove(i);
            proof {
                let ii = i as int;
                assert forall|a: int, b: int|
                    0 <= a < list@.len() && 0 <= b < list@.len() && a != b implies list@[a] != list@[b] by {
                    let oa = if a < ii { a } else { a + 1 };
                    let ob = if b < ii { b } else { b + 1 };
                    assert(list@[a] == old_list[oa]);
                    assert(list@[b] == old_list[ob]);
                }
                assert forall|x: Entity| list@.contains(x) <==> (old_list.contains(x) && x != entity) by {
                    if list@.contains(x) {
                        let a = choose|a: int| 0 <= a < list@.len() && list@[a] == x;
                        let oa = if a < ii { a } else { a + 1 };
                        assert(list@[a] == old_list[oa]);
                        assert(oa != ii);
                    }
                    if old_list.contains(x) && x != entity {
                        let a = choose|a: int| 0 <= a < old_list.len() && old_list[a] == x;
                        assert(a != ii);
                        let na = if a < ii { a } else { a - 1 };
                        assert(list@[na] == old_list[a]);
                    }
                }
            }
        } else {
            assert(!old_list.contains(entity));
        }
        self.entities.set(g, list);
        proof {
            assert(self.requirements@ == old_self.requirements@);
            assert forall|a: int, b: int|
                0 <= a < self.spec_len() && 0 <= b < self.spec_len() && a != b implies self.requirement(a)
                != self.requirement(b) by {
                assert(old_self.requirement(a) != old_self.requirement(b));
            }
            assert forall|h: int| 0 <= h < self.spec_len() implies (#[trigger] self.members(h)).no_duplicates() by {
                if h != g {
                    assert(self.members(h) == old_self.members(h));
                }
            }
        }
    }
}

} // verus!
