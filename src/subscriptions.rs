use vstd::prelude::*;

use ahash::{AHashMap, RandomState};

use crate::entity::EventId;

verus! {

#[verifier::external_type_specification]
#[verifier::external_body]
#[verifier::reject_recursive_types(K)]
#[verifier::reject_recursive_types(V)]
#[verifier::reject_recursive_types(S)]
pub struct ExAHashMap<K, V, S>(AHashMap<K, V, S>);

#[verifier::external_type_specification]
#[verifier::external_body]
pub struct ExRandomState(RandomState);

/// A hash table from event types to lists of systems.
pub type EventTable = AHashMap<EventId, Vec<usize>>;

/// What an event table maps each event type to: its subscribed systems.
pub uninterp spec fn table_contents(m: EventTable) -> Map<EventId, Seq<usize>>;

/// Relies on ahash::AHashMap::new: a map with no entries.
#[verifier::external_body]
fn table_new() -> (r: EventTable)
    ensures
        forall|k: EventId| !table_contents(r).contains_key(k),
{
    AHashMap::new()
}

/// Relies on ahash::AHashMap::get: the value stored under the key, if any.
#[verifier::external_body]
fn table_get(m: &EventTable, k: EventId) -> (r: Option<&Vec<usize>>)
    ensures
        match r {
            Some(v) => table_contents(*m).contains_key(k) && v@ == table_contents(*m)[k],
            None => !table_contents(*m).contains_key(k),
        },
{
    m.get(&k)
}

/// Relies on ahash::AHashMap::insert: the key maps to the value afterwards,
/// every other key keeps its value.
#[verifier::external_body]
fn table_insert(m: &mut EventTable, k: EventId, v: Vec<usize>)
    ensures
        table_contents(*final(m)) == table_contents(*old(m)).insert(k, v@),
{
    m.insert(k, v);
}

/// The systems subscribed to each event type, in registration order.
pub struct Subscriptions {
    table: EventTable,
}

impl View for Subscriptions {
    type V = Map<EventId, Seq<usize>>;

    closed spec fn view(&self) -> Map<EventId, Seq<usize>> {
        table_contents(self.table)
    }
}

impl Subscriptions {
    /// The systems subscribed to an event type; none where it has no entry.
    pub open spec fn spec_subscribers(&self, event: EventId) -> Seq<usize> {
        if self@.contains_key(event) {
            self@[event]
        } else {
            Seq::empty()
        }
    }

    pub fn new() -> (r: Self)
        ensures
            r@ == Map::<EventId, Seq<usize>>::empty(),
    {
        let r = Subscriptions { table: table_new() };
        assert(r@ =~= Map::<EventId, Seq<usize>>::empty());
        r
    }

    /// The systems subscribed to the event type, in registration order.
    pub fn subscribers(&self, event: EventId) -> (r: Vec<usize>)
        ensures
            r@ == self.spec_subscribers(event),
    {
        match table_get(&self.table, event) {
            Some(v) => v.clone(),
            None => Vec::new(),
        }
    }

    /// Appends a system to the subscribers of the event type, unless it is
    /// already the last of them.
    pub fn subscribe(&mut self, event: EventId, system: usize)
        ensures
            forall|e: EventId| e != event ==> final(self).spec_subscribers(e) == old(self).spec_subscribers(e),
            final(self).spec_subscribers(event) == if old(self).spec_subscribers(event).len() > 0
                && old(self).spec_subscribers(event).last() == system {
                old(self).spec_subscribers(event)
            } else {
                old(self).spec_subscribers(event).push(system)
            },
    {
        let mut list = self.subscribers(event);
        let n = list.len();
        if n > 0 && list[n - 1] == system {
            return;
        }
        list.push(system);
        table_insert(&mut self.table, event, list);
    }
}

} // verus!
