//! Entity handles and the directory that maps them to locations.

use vstd::prelude::*;

verus! {

/// Generation of an entity slot. Starts at 1 and grows by one each time
/// the slot's entity is despawned.
#[derive(Clone, Copy, Debug, PartialEq, Eq, Structural, Hash)]
pub struct Generation {
    value: u64,
}

impl Generation {
    #[verifier::type_invariant]
    spec fn starts_at_one(self) -> bool {
        self.value >= 1
    }

    pub closed spec fn spec_value(&self) -> u64 {
        self.value
    }

    /// The first generation of every slot.
    pub fn new() -> (r: Generation)
        ensures
            r.spec_value() == 1,
    {
        Generation { value: 1 }
    }

    pub fn is_initial(&self) -> (r: bool)
        ensures
            r == (self.spec_value() == 1),
    {
        self.value == 1
    }

    /// The next generation, which is never the initial one.
    pub fn inc(&mut self)
        requires
            old(self).spec_value() < u64::MAX,
        ensures
            final(self).spec_value() == old(self).spec_value() + 1,
            final(self).spec_value() >= 2,
    {
        proof {
            use_type_invariant(&*self);
        }
        *self = Generation { value: self.value + 1 };
    }

    pub fn get(&self) -> (r: u64)
        ensures
            r == self.spec_value(),
            r >= 1,
    {
        proof {
            use_type_invariant(self);
        }
        self.value
    }
}

/// Handle of an entity: the index of its slot and the slot's generation
/// when the entity was spawned.
#[derive(Clone, Copy, Debug, PartialEq, Eq, Structural, Hash)]
pub struct Entity {
    index: usize,
    gen: Generation,
}

impl Entity {
    /// Handles with the same index and generation are the same handle.
    pub proof fn lemma_same_handle(a: Entity, b: Entity)
        requires
            a.spec_index() == b.spec_index(),
            a.spec_generation() == b.spec_generation(),
        ensures
            a == b,
    {
    }

    pub closed spec fn spec_index(&self) -> int {
        self.index as int
    }

    pub closed spec fn spec_generation(&self) -> u64 {
        self.gen.spec_value()
    }

    pub fn index(&self) -> (r: usize)
        ensures
            r == self.spec_index(),
    {
        self.index
    }

    pub fn generation(&self) -> (r: u64)
        ensures
            r == self.spec_generation(),
    {
        self.gen.get()
    }
}

/// Where an entity's components are: an archetype and a row in it.
#[derive(Clone, Copy, Debug, PartialEq, Eq, Structural)]
pub struct Location {
    pub archetype: usize,
    pub index: usize,
}

/// Archetype index of an entity that has no row yet.
pub const NO_ARCHETYPE: usize = 4294967295;

impl Location {
    /// The location of an entity that has no row yet.
    pub fn empty() -> (r: Location)
        ensures
            r == (Location { archetype: NO_ARCHETYPE as usize, index: 0 }),
    {
        Location { archetype: NO_ARCHETYPE as usize, index: 0 }
    }
}

/// The directory has no slot left for a new entity.
#[derive(Clone, Copy, Debug, PartialEq, Eq, Structural)]
pub struct TooManyEntities;

/// Largest number of entity slots.
pub const MAX_ENTITIES: usize = 2147483647;

/// One slot of the directory.
#[derive(Clone, Copy, Debug)]
pub struct Entry {
    pub location: Location,
    pub gen: u64,
    pub alive: bool,
}

/// Maps entity handles to locations. A despawned slot is reused by a later
/// spawn with the next generation; a slot whose generation cannot grow any
/// more is never reused.
pub struct EntityLocations {
    entries: Vec<Entry>,
    ready: Vec<usize>,
}

impl EntityLocations {
    pub closed spec fn spec_entries(&self) -> Seq<Entry> {
        self.entries@
    }

    pub closed spec fn spec_ready(&self) -> Seq<usize> {
        self.ready@
    }

    /// `e` names the live entity of its slot.
    pub open spec fn spec_valid(&self, e: Entity) -> bool {
        &&& 0 <= e.spec_index() < self.spec_entries().len()
        &&& self.spec_entries()[e.spec_index()].alive
        &&& self.spec_entries()[e.spec_index()].gen == e.spec_generation()
    }

    /// Location of the entity in slot `e`.
    pub open spec fn spec_location(&self, e: Entity) -> Location {
        self.spec_entries()[e.spec_index()].location
    }

    /// Generations start at 1; the slots ready for reuse are distinct, dead
    /// and can take one more generation.
    pub open spec fn wf(&self) -> bool {
        &&& self.spec_entries().len() <= MAX_ENTITIES
        &&& forall|i: int| 0 <= i < self.spec_entries().len() ==> (#[trigger] self.spec_entries()[i]).gen >= 1
        &&& forall|j: int|
            0 <= j < self.spec_ready().len() ==> {
                let i = #[trigger] self.spec_ready()[j];
                &&& i < self.spec_entries().len()
                &&& !self.spec_entries()[i as int].alive
                &&& self.spec_entries()[i as int].gen < u64::MAX
            }
        &&& forall|a: int, b: int|
            0 <= a < self.spec_ready().len() && 0 <= b < self.spec_ready().len() && a != b ==> #[trigger] self.spec_ready()[a]
                != #[trigger] self.spec_ready()[b]
    }

    /// Slot `i` is dead and will never be reused.
    pub open spec fn spec_retired(&self, i: int) -> bool {
        &&& !self.spec_entries()[i].alive
        &&& !self.spec_ready().contains(i as usize)
    }

    /// Generations never decrease.
    pub open spec fn generations_grow(&self, next: &EntityLocations) -> bool {
        &&& self.spec_entries().len() <= next.spec_entries().len()
        &&& forall|i: int|
            0 <= i < self.spec_entries().len() ==> (#[trigger] self.spec_entries()[i]).gen
                <= next.spec_entries()[i].gen
    }

    /// An empty directory.
    pub fn new() -> (r: EntityLocations)
        ensures
            r.wf(),
            r.spec_entries().len() == 0,
            r.spec_ready().len() == 0,
    {
        EntityLocations { entries: Vec::new(), ready: Vec::new() }
    }

    /// Number of slots.
    pub fn len(&self) -> (r: usize)
        ensures
            r == self.spec_entries().len(),
    {
        self.entries.len()
    }

    /// `e` takes a slot ready for reuse, with its current generation, or a
    /// fresh slot with the first generation.
    pub open spec fn reuses(&self, e: Entity) -> bool {
        &&& (e.spec_index() < self.spec_entries().len() ==> {
            &&& !self.spec_entries()[e.spec_index()].alive
            &&& self.spec_ready().contains(e.spec_index() as usize)
            &&& e.spec_generation() == self.spec_entries()[e.spec_index()].gen
        })
        &&& (e.spec_index() == self.spec_entries().len() ==> e.spec_generation() == 1)
        &&& e.spec_index() <= self.spec_entries().len()
    }

    /// What `spawn` guarantees: a handle of a slot that was free, now live at
    /// no location, with the slot's current generation; all other slots kept.
    pub open spec fn spawned(&self, next: &EntityLocations, e: Entity) -> bool {
        &&& next.wf()
        &&& next.spec_valid(e)
        &&& next.spec_location(e) == Location { archetype: NO_ARCHETYPE as usize, index: 0 }
        &&& self.reuses(e)
        &&& next.spec_entries().len() == if e.spec_index() == self.spec_entries().len() {
            self.spec_entries().len() + 1
        } else {
            self.spec_entries().len() + 0
        }
        &&& self.generations_grow(next)
        &&& forall|i: int|
            0 <= i < self.spec_entries().len() && i != e.spec_index() ==> #[trigger] next.spec_entries()[i]
                == self.spec_entries()[i]
        &&& forall|i: int|
            0 <= i < self.spec_entries().len() ==> (#[trigger] next.spec_entries()[i]).gen
                == self.spec_entries()[i].gen
        &&& forall|i: int| 0 <= i < self.spec_entries().len() && self.spec_retired(i) ==> #[trigger] next.spec_retired(i)
    }

    /// Allocates a handle, reusing a despawned slot where one is ready.
    pub fn spawn(&mut self) -> (r: Result<Entity, TooManyEntities>)
        requires
            old(self).wf(),
        ensures
            r.is_err() <==> old(self).spec_ready().len() == 0 && old(self).spec_entries().len() == MAX_ENTITIES,
            r.is_ok() ==> old(self).spawned(final(self), r.unwrap()),
            r.is_err() ==> *final(self) == *old(self),
    {
        if self.ready.len() > 0 {
            let ghost r0 = old(self).spec_ready();
            let i = self.ready.pop().unwrap();
            let gen = self.entries[i].gen;
            let loc = Location::empty();
            self.entries.set(i, Entry { location: loc, gen, alive: true });
            let e = Entity { index: i, gen: Generation { value: gen } };
            proof {
                assert(r0[r0.len() - 1] == i);
                assert(self.spec_ready() == r0.drop_last());
                assert forall|j: int| 0 <= j < self.spec_ready().len() implies #[trigger] self.spec_ready()[j] != i by {
                    assert(r0[j] == self.spec_ready()[j]);
                    assert(r0[j] != r0[r0.len() - 1]);
                }
                assert(r0.contains(i));
                assert forall|x: int| 0 <= x < self.spec_entries().len() && old(self).spec_retired(x) implies #[trigger] self.spec_retired(x) by {
                    if x != i {
                        if self.spec_ready().contains(x as usize) {
                            let j = choose|j: int| 0 <= j < self.spec_ready().len() && self.spec_ready()[j] == x as usize;
                            assert(r0[j] == x as usize);
                        }
                    }
                }
                assert forall|a: int, b: int|
                    0 <= a < self.spec_ready().len() && 0 <= b < self.spec_ready().len() && a != b implies #[trigger] self.spec_ready()[a]
                    != #[trigger] self.spec_ready()[b] by {
                    assert(r0[a] != r0[b]);
                }
            }
            Ok(e)
        } else {
            if self.entries.len() >= MAX_ENTITIES {
                return Err(TooManyEntities);
            }
            let i = self.entries.len();
            self.entries.push(Entry { location: Location::empty(), gen: 1, alive: true });
            proof {
                assert forall|x: int| 0 <= x < old(self).spec_entries().len() && old(self).spec_retired(x) implies #[trigger] self.spec_retired(x) by {
                    assert(self.spec_entries()[x] == old(self).spec_entries()[x]);
                }
            }
            Ok(Entity { index: i, gen: Generation { value: 1 } })
        }
    }

    /// Location of `entity`; `None` unless the handle is valid.
    pub fn locate(&self, entity: Entity) -> (r: Option<Location>)
        ensures
            r.is_some() <==> self.spec_valid(entity),
            r.is_some() ==> r.unwrap() == self.spec_location(entity),
    {
        if entity.index < self.entries.len() {
            let entry = self.entries[entity.index];
            if entry.alive && entry.gen == entity.gen.value {
                return Some(entry.location);
            }
        }
        None
    }

    /// Handle of the live entity in slot `index`, if there is one.
    pub fn handle(&self, index: usize) -> (r: Option<Entity>)
        requires
            self.wf(),
        ensures
            r.is_some() <==> index < self.spec_entries().len() && self.spec_entries()[index as int].alive,
            r.is_some() ==> r.unwrap().spec_index() == index && self.spec_valid(r.unwrap()),
    {
        if index < self.entries.len() && self.entries[index].alive {
            Some(Entity { index, gen: Generation { value: self.entries[index].gen } })
        } else {
            None
        }
    }

    /// Returns true if `entity` names a live entity.
    pub fn contains(&self, entity: Entity) -> (r: bool)
        ensures
            r == self.spec_valid(entity),
    {
        self.locate(entity).is_some()
    }

    /// Moves the live entity `entity` to `location`.
    pub fn relocate(&mut self, entity: Entity, location: Location)
        requires
            old(self).wf(),
            old(self).spec_valid(entity),
        ensures
            final(self).wf(),
            final(self).spec_ready() == old(self).spec_ready(),
            final(self).spec_entries() == old(self).spec_entries().update(
                entity.spec_index(),
                Entry { location, gen: entity.spec_generation(), alive: true },
            ),
    {
        self.entries.set(entity.index, Entry { location, gen: entity.gen.value, alive: true });
        proof {
            assert forall|j: int| 0 <= j < self.spec_ready().len() implies {
                let i = #[trigger] self.spec_ready()[j];
                &&& i < self.spec_entries().len()
                &&& !self.spec_entries()[i as int].alive
                &&& self.spec_entries()[i as int].gen < u64::MAX
            } by {
                let i = self.spec_ready()[j];
                assert(old(self).spec_ready()[j] == i);
                assert(i != entity.spec_index());
            }
        }
    }

    /// What `despawn` guarantees for a valid handle: the slot is dead, its
    /// generation has grown or it is retired, and all other slots are kept.
    pub open spec fn despawned(&self, next: &EntityLocations, e: Entity) -> bool {
        let i = e.spec_index();
        &&& next.wf()
        &&& !next.spec_entries()[i].alive
        &&& (next.spec_entries()[i].gen == e.spec_generation() + 1 || next.spec_retired(i))
        &&& next.spec_entries()[i].gen >= e.spec_generation()
        &&& next.spec_entries()[i].location == self.spec_entries()[i].location
        &&& next.spec_entries().len() == self.spec_entries().len()
        &&& self.generations_grow(next)
        &&& forall|j: int|
            0 <= j < self.spec_entries().len() && j != i ==> #[trigger] next.spec_entries()[j]
                == self.spec_entries()[j]
        &&& forall|j: int| 0 <= j < next.spec_entries().len() && self.spec_retired(j) ==> #[trigger] next.spec_retired(j)
    }

    /// Despawns `entity`, returning where it was; `None` if the handle is not
    /// valid, and then nothing changes.
    pub fn despawn(&mut self, entity: Entity) -> (r: Option<Location>)
        requires
            old(self).wf(),
        ensures
            r.is_some() <==> old(self).spec_valid(entity),
            r.is_some() ==> r.unwrap() == old(self).spec_location(entity) && old(self).despawned(final(self), entity),
            r.is_none() ==> *final(self) == *old(self),
    {
        match self.locate(entity) {
            None => None,
            Some(location) => {
                let i = entity.index;
                let gen = self.entries[i].gen;
                let next_gen = if gen < u64::MAX {
                    gen + 1
                } else {
                    gen
                };
                self.entries.set(i, Entry { location, gen: next_gen, alive: false });
                let ghost r0 = old(self).spec_ready();
                assert(self.spec_ready() == r0);
                assert forall|j: int| 0 <= j < r0.len() implies #[trigger] r0[j] != i by {}
                if next_gen < u64::MAX && next_gen != gen {
                    self.ready.push(i);
                    proof {
                        assert forall|a: int, b: int|
                            0 <= a < self.spec_ready().len() && 0 <= b < self.spec_ready().len() && a != b implies #[trigger] self.spec_ready()[a]
                            != #[trigger] self.spec_ready()[b] by {
                            if a < r0.len() && b < r0.len() {
                                assert(r0[a] != r0[b]);
                            }
                        }
                        assert forall|j: int| 0 <= j < self.spec_ready().len() implies {
                            let x = #[trigger] self.spec_ready()[j];
                            &&& x < self.spec_entries().len()
                            &&& !self.spec_entries()[x as int].alive
                            &&& self.spec_entries()[x as int].gen < u64::MAX
                        } by {
                            if j < r0.len() {
                                assert(r0[j] == self.spec_ready()[j]);
                            }
                        }
                        assert forall|x: int| 0 <= x < self.spec_entries().len() && old(self).spec_retired(x) implies #[trigger] self.spec_retired(x) by {
                            if self.spec_ready().contains(x as usize) {
                                let j = choose|j: int| 0 <= j < self.spec_ready().len() && self.spec_ready()[j] == x as usize;
                                if j < r0.len() {
                                    assert(r0[j] == x as usize);
                                }
                            }
                        }
                    }
                } else {
                    proof {
                        assert(!self.spec_ready().contains(i)) by {
                            if self.spec_ready().contains(i) {
                                let j = choose|j: int| 0 <= j < self.spec_ready().len() && self.spec_ready()[j] == i;
                                assert(r0[j] == i);
                            }
                        }
                        assert forall|j: int| 0 <= j < self.spec_ready().len() implies {
                            let x = #[trigger] self.spec_ready()[j];
                            &&& x < self.spec_entries().len()
                            &&& !self.spec_entries()[x as int].alive
                            &&& self.spec_entries()[x as int].gen < u64::MAX
                        } by {
                            assert(r0[j] == self.spec_ready()[j]);
                        }
                        assert forall|x: int| 0 <= x < self.spec_entries().len() && old(self).spec_retired(x) implies #[trigger] self.spec_retired(x) by {}
                    }
                }
                Some(location)
            },
        }
    }
}

/// Once despawned, a handle never becomes valid again by being reused: a
/// later spawn that reuses its slot hands out a strictly greater generation,
/// and the old handle names no live entity afterwards.
pub proof fn lemma_generation_aliasing(
    before: EntityLocations,
    after_despawn: EntityLocations,
    after_spawn: EntityLocations,
    e: Entity,
    reused: Entity,
)
    requires
        before.wf(),
        before.spec_valid(e),
        before.despawned(&after_despawn, e),
        after_despawn.spawned(&after_spawn, reused),
        reused.spec_index() == e.spec_index(),
    ensures
        reused.spec_generation() > e.spec_generation(),
        !after_despawn.spec_valid(e),
        !after_spawn.spec_valid(e),
{
    let i = e.spec_index();
    assert(after_despawn.spec_ready().contains(i as usize));
    assert(after_despawn.spec_entries()[i].gen == e.spec_generation() + 1);
}

} // verus!
