//! The handle a running system gets: one grant token per archetype.

use vstd::prelude::*;
use crate::access::{granted, take_all, Access, ArchetypeAccess};
use crate::component::ComponentId;
use crate::entity::Entity;
use crate::schedule::Plan;
use crate::view::Query;
use crate::world::{NoSuchEntity, World};

verus! {

/// Grants of one system on every archetype of a world, token `a` for
/// archetype `a`.
#[derive(Debug)]
pub struct WorldAccess {
    tokens: Vec<ArchetypeAccess>,
}

impl WorldAccess {
    pub closed spec fn spec_tokens(&self) -> Seq<ArchetypeAccess> {
        self.tokens@
    }

    /// Token `a` is for archetype `a`.
    pub open spec fn wf(&self) -> bool {
        forall|a: int| 0 <= a < self.spec_tokens().len() ==> (#[trigger] self.spec_tokens()[a]).spec_archetype() == a
    }

    /// The access this handle grants on component `id` of the live entity `e`.
    pub open spec fn spec_granted(&self, world: World, e: Entity, id: ComponentId) -> Option<Access> {
        let a = world.spec_entities().spec_location(e).archetype as int;
        if a < self.spec_tokens().len() {
            granted(self.spec_tokens()[a].spec_grants(), id)
        } else {
            None
        }
    }

    /// The grants the plan gives system `j`: its declared access on every
    /// archetype.
    pub fn for_system(plan: &Plan, j: usize) -> (r: WorldAccess)
        requires
            j < plan.intents@.len(),
        ensures
            r.wf(),
            r.spec_tokens().len() == plan.intents@[j as int]@.len(),
            forall|a: int|
                0 <= a < r.spec_tokens().len() ==> (#[trigger] r.spec_tokens()[a]).spec_grants() == plan.intent(
                    j as int,
                    a,
                ),
    {
        let intents = &plan.intents[j];
        let mut tokens: Vec<ArchetypeAccess> = Vec::new();
        let mut a: usize = 0;
        while a < intents.len()
            invariant
                0 <= a <= intents@.len(),
                *intents == plan.intents@[j as int],
                tokens@.len() == a,
                forall|b: int| 0 <= b < a ==> (#[trigger] tokens@[b]).spec_archetype() == b,
                forall|b: int| 0 <= b < a ==> (#[trigger] tokens@[b]).spec_grants() == plan.intent(j as int, b),
            decreases intents@.len() - a,
        {
            let grants = intents[a].clone();
            assert(grants@ =~= intents@[a as int]@);
            tokens.push(ArchetypeAccess::new(a, grants));
            a = a + 1;
        }
        WorldAccess { tokens }
    }

    /// A copy of every token, for use while `self` is kept.
    pub fn reborrow(&self) -> (r: WorldAccess)
        ensures
            r.spec_tokens().len() == self.spec_tokens().len(),
            forall|a: int|
                0 <= a < r.spec_tokens().len() ==> (#[trigger] r.spec_tokens()[a]).spec_grants()
                    == self.spec_tokens()[a].spec_grants() && r.spec_tokens()[a].spec_archetype()
                    == self.spec_tokens()[a].spec_archetype(),
    {
        let mut tokens: Vec<ArchetypeAccess> = Vec::new();
        let mut a: usize = 0;
        while a < self.tokens.len()
            invariant
                0 <= a <= self.tokens@.len(),
                tokens@.len() == a,
                forall|b: int|
                    0 <= b < a ==> (#[trigger] tokens@[b]).spec_grants() == self.tokens@[b].spec_grants()
                        && tokens@[b].spec_archetype() == self.tokens@[b].spec_archetype(),
            decreases self.tokens@.len() - a,
        {
            tokens.push(self.tokens[a].reborrow());
            a = a + 1;
        }
        WorldAccess { tokens }
    }

    /// Moves out, archetype by archetype, the grants `accessor` declares, by
    /// the rules of `ArchetypeAccess::take`.
    pub fn take(&mut self, world: &World, accessor: &Query) -> (r: WorldAccess)
        requires
            world.wf(),
            old(self).spec_tokens().len() <= world.spec_archetypes().len(),
        ensures
            r.spec_tokens().len() == old(self).spec_tokens().len(),
            final(self).spec_tokens().len() == old(self).spec_tokens().len(),
            forall|a: int|
                0 <= a < r.spec_tokens().len() ==> ((#[trigger] final(self).spec_tokens()[a]).spec_grants(),
                r.spec_tokens()[a].spec_grants()) == take_all(
                    old(self).spec_tokens()[a].spec_grants(),
                    accessor.spec_access_types(world.spec_archetypes()[a].spec_archetype()),
                ),
            forall|a: int|
                0 <= a < r.spec_tokens().len() ==> (#[trigger] r.spec_tokens()[a]).spec_archetype()
                    == old(self).spec_tokens()[a].spec_archetype() && final(self).spec_tokens()[a].spec_archetype()
                    == old(self).spec_tokens()[a].spec_archetype(),
    {
        let archetypes = world.archetypes();
        let n = self.tokens.len();
        let mut taken: Vec<ArchetypeAccess> = Vec::new();
        let mut a: usize = 0;
        while a < n
            invariant
                0 <= a <= n,
                n == old(self).spec_tokens().len(),
                n <= archetypes@.len(),
                archetypes@ == world.spec_archetypes(),
                world.wf(),
                self.tokens@.len() == n,
                taken@.len() == a,
                forall|b: int| a <= b < n ==> #[trigger] self.tokens@[b] == old(self).spec_tokens()[b],
                forall|b: int|
                    0 <= b < a ==> ((#[trigger] self.tokens@[b]).spec_grants(), taken@[b].spec_grants()) == take_all(
                        old(self).spec_tokens()[b].spec_grants(),
                        accessor.spec_access_types(world.spec_archetypes()[b].spec_archetype()),
                    ),
                forall|b: int|
                    0 <= b < a ==> (#[trigger] taken@[b]).spec_archetype() == old(self).spec_tokens()[b].spec_archetype()
                        && self.tokens@[b].spec_archetype() == old(self).spec_tokens()[b].spec_archetype(),
            decreases n - a,
        {
            proof {
                assert(world.spec_archetypes()[a as int].wf());
            }
            let requested = accessor.access_types(archetypes[a].archetype());
            let t = self.tokens[a].take(&requested);
            taken.push(t);
            a = a + 1;
        }
        WorldAccess { tokens: taken }
    }

    /// Access this handle grants on component `id` of `entity`; `None`
    /// where the entity is not live or nothing is granted.
    pub fn granted_on(&self, world: &World, entity: Entity, id: ComponentId) -> (r: Option<Access>)
        requires
            world.wf(),
        ensures
            world.spec_contains(entity) ==> r == self.spec_granted(*world, entity, id),
            !world.spec_contains(entity) ==> r.is_none(),
    {
        match world.entities().locate(entity) {
            None => None,
            Some(loc) => {
                if loc.archetype < self.tokens.len() {
                    match self.tokens[loc.archetype].borrow_read_component(id) {
                        None => None,
                        Some(_) => {
                            if self.tokens[loc.archetype].borrow_write_component(id).is_some() {
                                Some(Access::Write)
                            } else {
                                Some(Access::Read)
                            }
                        },
                    }
                } else {
                    None
                }
            },
        }
    }

    /// Component `id` of `entity`, read under this handle's grant, which
    /// must exist: asking for a component the system did not declare is a
    /// programming error.
    pub fn get_component<'w>(&self, world: &'w World, entity: Entity, id: ComponentId) -> (r: Result<
        Option<&'w [u8]>,
        NoSuchEntity,
    >)
        requires
            world.wf(),
            world.spec_contains(entity) ==> self.spec_granted(*world, entity, id).is_some(),
        ensures
            r.is_err() <==> !world.spec_contains(entity),
            r.is_ok() ==> (r.unwrap().is_some() <==> world.spec_get(entity, id).is_some()),
            r.is_ok() && r.unwrap().is_some() ==> r.unwrap().unwrap()@ == world.spec_get(entity, id).unwrap(),
    {
        world.get_ref(entity, id)
    }

    /// Overwrites component `id` of `entity` under this handle's write
    /// grant, which must exist.
    pub fn set_component(&self, world: &mut World, entity: Entity, id: ComponentId, value: &Vec<u8>) -> (r: Result<
        bool,
        NoSuchEntity,
    >)
        requires
            old(world).wf(),
            old(world).spec_contains(entity) ==> self.spec_granted(*old(world), entity, id) == Some(Access::Write),
        ensures
            final(world).wf(),
            r.is_err() <==> !old(world).spec_contains(entity),
            r == Ok::<bool, NoSuchEntity>(true) <==> old(world).spec_contains(entity) && old(world).spec_get(
                entity,
                id,
            ).is_some() && old(world).spec_get(entity, id).unwrap().len() == value@.len(),
            r == Ok::<bool, NoSuchEntity>(true) ==> final(world).spec_get(entity, id) == Some(value@),
            forall|e: Entity| #[trigger] final(world).spec_contains(e) == old(world).spec_contains(e),
            forall|e: Entity, c: ComponentId|
                old(world).spec_contains(e) && (e != entity || c != id || r != Ok::<bool, NoSuchEntity>(true))
                    ==> #[trigger] final(world).spec_get(e, c) == old(world).spec_get(e, c),
    {
        world.set_component(entity, id, value)
    }
}

} // verus!
