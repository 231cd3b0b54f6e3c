//! The world: every archetype storage, the signature map and the entity
//! directory.

use vstd::prelude::*;
use crate::archetype::{
    distinct_ids, ids_of, layout_fits, sort_components, sorted_by_id, Archetype, ChunkLimits,
};
use crate::bundle::{ids_of_infos, Bundle, IncompleteBundle};
use crate::component::{ComponentId, ComponentInfo};
use crate::entity::{Entity, EntityLocations, Location, MAX_ENTITIES};
use crate::signature::{
    lookup_signature, new_signature_map, record_signature, signature_entries, SignatureMap,
};
use crate::storage::{ArchetypeStorage, MAX_ROWS};
use crate::view::{fetched_by, Fetched, Query};

verus! {

/// Largest number of archetypes in one world; archetype indices fit in 32 bits.
pub const MAX_ARCHETYPES: usize = 4294967294;

/// The entity handle does not name a live entity.
#[derive(Clone, Copy, Debug, PartialEq, Eq, Structural)]
pub struct NoSuchEntity;

/// Why a spawn failed.
#[derive(Debug)]
pub enum SpawnError {
    /// The components do not fit in a chunk under the chunk limits.
    EntityTooLarge,
    /// A new archetype was needed and the world already has `MAX_ARCHETYPES`.
    TooManyArchetypes,
    /// No entity slot or archetype row is left.
    TooManyEntities,
    /// The bundle left components unwritten; those it wrote were dropped.
    IncompleteBundle(IncompleteBundle),
}

/// The identifiers as plain integers: the key of a signature.
pub open spec fn key_of(ids: Seq<ComponentId>) -> Seq<u64> {
    ids.map_values(|c: ComponentId| c.0)
}

proof fn lemma_key_injective(a: Seq<ComponentId>, b: Seq<ComponentId>)
    requires
        key_of(a) == key_of(b),
    ensures
        a == b,
{
    assert(a.len() == key_of(a).len());
    assert(b.len() == key_of(b).len());
    assert forall|i: int| 0 <= i < a.len() implies a[i] == b[i] by {
        assert(key_of(a)[i] == key_of(b)[i]);
        assert(key_of(a)[i] == a[i].0);
        assert(key_of(b)[i] == b[i].0);
    }
    assert(a =~= b);
}

proof fn lemma_extends_trans(a: World, b: World, c: World)
    requires
        a.extends(&b),
        b.extends(&c),
        a.keeps_entities(&b),
    ensures
        a.extends(&c),
{
    assert forall|e: Entity| #[trigger] a.spec_contains(e) implies c.spec_entities().spec_location(e)
        == a.spec_entities().spec_location(e) by {
        assert(b.spec_contains(e));
    }
}

/// What a spawn meant stays true as the world grows.
proof fn lemma_spawn_result_kept<B: Bundle>(w1: World, w2: World, b: B, res: Result<Entity, SpawnError>)
    requires
        w1.wf(),
        w2.wf(),
        w1.extends(&w2),
        w1.keeps_entities(&w2),
        w1.spawn_result(b, res),
    ensures
        w2.spawn_result(b, res),
{
    match res {
        Ok(e) => {
            assert(w2.spec_contains(e));
            let loc = w1.spec_entities().spec_location(e);
            assert(w1.spec_entities().spec_entries()[e.spec_index()].alive);
            assert(w2.spec_entities().spec_location(e) == loc);
            assert(w2.spec_archetypes()[loc.archetype as int].spec_archetype()
                == w1.spec_archetypes()[loc.archetype as int].spec_archetype());
            assert forall|id: ComponentId| #[trigger] w2.spec_get(e, id) == w1.spec_get(e, id) by {}
        },
        Err(SpawnError::TooManyEntities) => {
            if w1.spec_entities().spec_entries().len() != MAX_ENTITIES {
                let a = choose|a: int| 0 <= a < w1.spec_archetypes().len() && (#[trigger] w1.spec_archetypes()[a]).spec_len() == MAX_ROWS;
                assert(w2.spec_archetypes()[a].wf());
            }
        },
        Err(SpawnError::IncompleteBundle(_)) => {
            let (a, k) = choose|a: int, k: int|
                0 <= a < w1.spec_archetypes().len() && 0 <= k
                    < w1.spec_archetypes()[a].spec_archetype().spec_components().len() && (#[trigger] b.spec_init(
                    w1.spec_archetypes()[a].spec_archetype().spec_components(),
                )[k]).is_none();
            assert(w2.spec_archetypes()[a].spec_archetype() == w1.spec_archetypes()[a].spec_archetype());
        },
        _ => {},
    }
}

/// `spawn`'s guarantees amount to what its result means for the new world.
proof fn lemma_spawn_result_now<B: Bundle>(w1: World, w2: World, b: B, res: Result<Entity, SpawnError>)
    requires
        w1.wf(),
        w2.wf(),
        w1.extends(&w2),
        res.is_ok() ==> {
            let e = res.unwrap();
            let cols = w2.spec_storage_of(e).spec_archetype().spec_components();
            &&& w2.spec_contains(e)
            &&& forall|id: ComponentId|
                #[trigger] w2.spec_get(e, id).is_some() <==> ids_of_infos(b.spec_components()).contains(id)
            &&& forall|k: int| 0 <= k < cols.len() ==> #[trigger] w2.spec_get(e, cols[k].id) == b.spec_init(cols)[k]
        },
        res matches Err(SpawnError::TooManyArchetypes) ==> w1.spec_archetypes().len() == MAX_ARCHETYPES,
        res matches Err(SpawnError::TooManyEntities) ==> (w1.spec_entities().spec_ready().len() == 0
            && w1.spec_entities().spec_entries().len() == MAX_ENTITIES) || exists|a: int, s: Seq<ComponentInfo>|
            0 <= a < w2.spec_archetypes().len() && w2.spec_archetypes()[a].spec_len() == MAX_ROWS && sorted_by_id(s)
                && s.to_multiset() == b.spec_components().to_multiset() && #[trigger] w2.spec_archetypes()[a].spec_ids()
                == #[trigger] ids_of(s),
        res matches Err(SpawnError::EntityTooLarge) ==> exists|s: Seq<ComponentInfo>|
            sorted_by_id(s) && s.to_multiset() == b.spec_components().to_multiset() && !layout_fits(s, w1.spec_limits()),
        res matches Err(SpawnError::IncompleteBundle(_)) ==> exists|a: int, k: int|
            0 <= a < w2.spec_archetypes().len() && 0 <= k < w2.spec_archetypes()[a].spec_archetype().spec_components().len()
                && (#[trigger] b.spec_init(w2.spec_archetypes()[a].spec_archetype().spec_components())[k]).is_none(),
    ensures
        w2.spawn_result(b, res),
{
    match res {
        Err(SpawnError::TooManyEntities) => {
            if !(w1.spec_entities().spec_ready().len() == 0 && w1.spec_entities().spec_entries().len() == MAX_ENTITIES) {
                let (a, s) = choose|a: int, s: Seq<ComponentInfo>|
                    0 <= a < w2.spec_archetypes().len() && w2.spec_archetypes()[a].spec_len() == MAX_ROWS && sorted_by_id(s)
                        && s.to_multiset() == b.spec_components().to_multiset() && #[trigger] w2.spec_archetypes()[a].spec_ids()
                        == #[trigger] ids_of(s);
                assert(w2.spec_archetypes()[a].spec_len() == MAX_ROWS);
            }
        },
        Err(SpawnError::EntityTooLarge) => {
            let s = choose|s: Seq<ComponentInfo>|
                sorted_by_id(s) && s.to_multiset() == b.spec_components().to_multiset() && !layout_fits(s, w1.spec_limits());
            assert(!layout_fits(s, w2.spec_limits()));
        },
        _ => {},
    }
}

/// Sequences with the same elements hold the same identifiers.
proof fn lemma_same_ids(s: Seq<ComponentInfo>, t: Seq<ComponentInfo>, id: ComponentId)
    requires
        s.to_multiset() == t.to_multiset(),
    ensures
        ids_of(s).contains(id) <==> ids_of_infos(t).contains(id),
{
    if ids_of(s).contains(id) {
        let k = choose|k: int| 0 <= k < ids_of(s).len() && ids_of(s)[k] == id;
        vstd::seq_lib::to_multiset_contains(s, s[k]);
        vstd::seq_lib::to_multiset_contains(t, s[k]);
        assert(s.contains(s[k]));
        let j = choose|j: int| 0 <= j < t.len() && t[j] == s[k];
        assert(ids_of_infos(t)[j] == id);
    }
    if ids_of_infos(t).contains(id) {
        let j = choose|j: int| 0 <= j < ids_of_infos(t).len() && ids_of_infos(t)[j] == id;
        vstd::seq_lib::to_multiset_contains(t, t[j]);
        vstd::seq_lib::to_multiset_contains(s, t[j]);
        assert(t.contains(t[j]));
        let k = choose|k: int| 0 <= k < s.len() && s[k] == t[j];
        assert(ids_of(s)[k] == id);
    }
}

/// The key of the sorted components `s`.
fn key_of_components(s: &Vec<ComponentInfo>) -> (r: Vec<u64>)
    ensures
        r@ == key_of(ids_of(s@)),
{
    let mut r: Vec<u64> = Vec::new();
    let mut i: usize = 0;
    while i < s.len()
        invariant
            0 <= i <= s@.len(),
            r@ =~= key_of(ids_of(s@)).take(i as int),
        decreases s@.len() - i,
    {
        r.push(s[i].id().0);
        i = i + 1;
    }
    assert(key_of(ids_of(s@)).take(i as int) =~= key_of(ids_of(s@)));
    r
}

/// Container of entities, grouped by archetype.
pub struct World {
    archetypes: Vec<ArchetypeStorage>,
    archetype_map: SignatureMap,
    entities: EntityLocations,
    limits: ChunkLimits,
}

impl World {
    pub closed spec fn spec_archetypes(&self) -> Seq<ArchetypeStorage> {
        self.archetypes@
    }

    pub closed spec fn spec_entities(&self) -> EntityLocations {
        self.entities
    }

    pub closed spec fn spec_map(&self) -> Map<Seq<u64>, usize> {
        signature_entries(self.archetype_map)
    }

    pub closed spec fn spec_limits(&self) -> ChunkLimits {
        self.limits
    }

    /// `e` names a live entity.
    pub open spec fn spec_contains(&self, e: Entity) -> bool {
        self.spec_entities().spec_valid(e)
    }

    /// The storage holding the live entity `e`.
    pub open spec fn spec_storage_of(&self, e: Entity) -> ArchetypeStorage {
        self.spec_archetypes()[self.spec_entities().spec_location(e).archetype as int]
    }

    /// Bytes of component `id` of the live entity `e`, if it has one.
    pub open spec fn spec_get(&self, e: Entity, id: ComponentId) -> Option<Seq<u8>> {
        let st = self.spec_storage_of(e);
        if st.spec_ids().contains(id) {
            Some(st.spec_value(self.spec_entities().spec_location(e).index as int, st.spec_ids().index_of(id)))
        } else {
            None
        }
    }

    /// Every live entity has exactly one row, every row belongs to exactly
    /// one live entity, and the signature map has one entry per archetype.
    pub open spec fn wf(&self) -> bool {
        let ents = self.spec_entities();
        let arch = self.spec_archetypes();
        &&& ents.wf()
        &&& arch.len() <= MAX_ARCHETYPES
        &&& forall|a: int| 0 <= a < arch.len() ==> (#[trigger] arch[a]).wf()
        &&& forall|a: int|
            0 <= a < arch.len() ==> self.spec_map().contains_key(key_of((#[trigger] arch[a]).spec_ids()))
                && self.spec_map()[key_of(arch[a].spec_ids())] == a
        &&& forall|k: Seq<u64>|
            #[trigger] self.spec_map().contains_key(k) ==> self.spec_map()[k] < arch.len() && key_of(
                arch[self.spec_map()[k] as int].spec_ids(),
            ) == k
        &&& forall|i: int|
            0 <= i < ents.spec_entries().len() && (#[trigger] ents.spec_entries()[i]).alive ==> {
                let loc = ents.spec_entries()[i].location;
                &&& loc.archetype < arch.len()
                &&& loc.index < arch[loc.archetype as int].spec_len()
                &&& arch[loc.archetype as int].spec_entity(loc.index as int) == i
            }
        &&& forall|a: int, r: int|
            0 <= a < arch.len() && 0 <= r < arch[a].spec_len() ==> {
                let i = #[trigger] arch[a].spec_entity(r);
                &&& i < ents.spec_entries().len()
                &&& ents.spec_entries()[i as int].alive
                &&& ents.spec_entries()[i as int].location == Location {
                    archetype: a as usize,
                    index: r as usize,
                }
            }
    }

    /// An empty world with the default chunk limits.
    pub fn new() -> (r: World)
        ensures
            r.wf(),
            r.spec_archetypes().len() == 0,
            forall|e: Entity| !r.spec_contains(e),
    {
        World::with_limits(ChunkLimits::standard())
    }

    /// An empty world whose chunks follow `limits`.
    pub fn with_limits(limits: ChunkLimits) -> (r: World)
        ensures
            r.wf(),
            r.spec_archetypes().len() == 0,
            r.spec_limits() == limits,
            forall|e: Entity| !r.spec_contains(e),
    {
        World {
            archetypes: Vec::new(),
            archetype_map: new_signature_map(),
            entities: EntityLocations::new(),
            limits,
        }
    }

    /// The archetype storages, in order of creation.
    pub fn archetypes(&self) -> (r: &Vec<ArchetypeStorage>)
        ensures
            r@ == self.spec_archetypes(),
    {
        &self.archetypes
    }

    /// The entity directory.
    pub fn entities(&self) -> (r: &EntityLocations)
        ensures
            *r == self.spec_entities(),
    {
        &self.entities
    }

    /// Component `id` of `entity`: `Err` where the handle names no live
    /// entity, `Ok(None)` where the entity has no such component.
    pub fn get_ref(&self, entity: Entity, id: ComponentId) -> (r: Result<Option<&[u8]>, NoSuchEntity>)
        requires
            self.wf(),
        ensures
            r.is_err() <==> !self.spec_contains(entity),
            r.is_ok() ==> (r.unwrap().is_some() <==> self.spec_get(entity, id).is_some()),
            r.is_ok() && r.unwrap().is_some() ==> r.unwrap().unwrap()@ == self.spec_get(entity, id).unwrap(),
    {
        match self.entities.locate(entity) {
            None => Err(NoSuchEntity),
            Some(loc) => {
                proof {
                    assert(self.spec_entities().spec_entries()[entity.spec_index()].alive);
                }
                let storage = &self.archetypes[loc.archetype];
                Ok(storage.get_component_ref(loc.index, id))
            },
        }
    }

    /// Overwrites component `id` of `entity` with `value`. `Err` where the
    /// handle names no live entity; `Ok(false)`, and nothing changes, where
    /// the entity has no such component or `value` does not have its size.
    pub fn set_component(&mut self, entity: Entity, id: ComponentId, value: &Vec<u8>) -> (r: Result<
        bool,
        NoSuchEntity,
    >)
        requires
            old(self).wf(),
        ensures
            final(self).wf(),
            r.is_err() <==> !old(self).spec_contains(entity),
            r == Ok::<bool, NoSuchEntity>(true) <==> old(self).spec_contains(entity) && old(self).spec_get(entity, id).is_some()
                && old(self).spec_get(entity, id).unwrap().len() == value@.len(),
            r == Ok::<bool, NoSuchEntity>(true) ==> final(self).spec_get(entity, id) == Some(value@),
            forall|e: Entity| #[trigger] final(self).spec_contains(e) == old(self).spec_contains(e),
            forall|e: Entity, c: ComponentId|
                old(self).spec_contains(e) && (e != entity || c != id || r != Ok::<bool, NoSuchEntity>(true))
                    ==> #[trigger] final(self).spec_get(e, c) == old(self).spec_get(e, c),
    {
        let loc = match self.entities.locate(entity) {
            None => {
                return Err(NoSuchEntity);
            },
            Some(l) => l,
        };
        proof {
            assert(self.spec_entities().spec_entries()[entity.spec_index()].alive);
        }
        let k = match self.archetypes[loc.archetype].component_index(id) {
            None => {
                return Ok(false);
            },
            Some(k) => k,
        };
        let ghost a = loc.archetype as int;
        let ghost st0 = self.spec_archetypes()[a];
        proof {
            st0.spec_archetype().lemma_index_of(k as int);
            st0.lemma_value_len(loc.index as int, k as int);
        }
        let size = self.archetypes[loc.archetype].archetype().components()[k].size;
        if value.len() != size {
            return Ok(false);
        }
        self.archetypes[loc.archetype].set_value(loc.index, k, value);
        proof {
            let arch = self.spec_archetypes();
            let st1 = arch[a];
            assert(arch == old(self).spec_archetypes().update(a, st1));
            assert(st1.spec_ids() == st0.spec_ids());
            assert forall|b: int| 0 <= b < arch.len() implies (#[trigger] arch[b]).wf() by {
                if b != a {
                    assert(arch[b] == old(self).spec_archetypes()[b]);
                }
            }
            assert forall|b: int| 0 <= b < arch.len() implies self.spec_map().contains_key(
                key_of((#[trigger] arch[b]).spec_ids()),
            ) && self.spec_map()[key_of(arch[b].spec_ids())] == b by {
                assert(old(self).spec_map().contains_key(key_of(old(self).spec_archetypes()[b].spec_ids())));
            }
            assert forall|kk: Seq<u64>| #[trigger] self.spec_map().contains_key(kk) implies self.spec_map()[kk]
                < arch.len() && key_of(arch[self.spec_map()[kk] as int].spec_ids()) == kk by {
                assert(old(self).spec_map().contains_key(kk));
            }
            let ents = self.spec_entities();
            assert forall|i: int|
                0 <= i < ents.spec_entries().len() && (#[trigger] ents.spec_entries()[i]).alive implies {
                let l = ents.spec_entries()[i].location;
                &&& l.archetype < arch.len()
                &&& l.index < arch[l.archetype as int].spec_len()
                &&& arch[l.archetype as int].spec_entity(l.index as int) == i
            } by {
                let l = ents.spec_entries()[i].location;
                if l.archetype as int != a {
                    assert(arch[l.archetype as int] == old(self).spec_archetypes()[l.archetype as int]);
                }
            }
            assert forall|b: int, row: int| 0 <= b < arch.len() && 0 <= row < arch[b].spec_len() implies {
                let x = #[trigger] arch[b].spec_entity(row);
                &&& x < ents.spec_entries().len()
                &&& ents.spec_entries()[x as int].alive
                &&& ents.spec_entries()[x as int].location == Location { archetype: b as usize, index: row as usize }
            } by {
                if b != a {
                    assert(arch[b] == old(self).spec_archetypes()[b]);
                }
                assert(arch[b].spec_entity(row) == old(self).spec_archetypes()[b].spec_entity(row));
            }
            assert(self.wf());
            assert(self.spec_get(entity, id) == Some(value@)) by {
                assert(st1.spec_ids().index_of(id) == k);
            }
            assert forall|e: Entity, c: ComponentId|
                old(self).spec_contains(e) && (e != entity || c != id) implies #[trigger] self.spec_get(e, c)
                == old(self).spec_get(e, c) by {
                let l = ents.spec_entries()[e.spec_index()].location;
                assert(ents.spec_entries()[e.spec_index()].alive);
                if l.archetype as int == a {
                    if st0.spec_ids().contains(c) {
                        let kc = st0.spec_ids().index_of(c);
                        if l.index == loc.index {
                            assert(e.spec_index() == entity.spec_index());
                            Entity::lemma_same_handle(e, entity);
                            assert(c != id);
                            st0.spec_archetype().lemma_index_of(kc);
                            assert(kc != k);
                        }
                        assert(st1.spec_value(l.index as int, kc) == st0.spec_value(l.index as int, kc));
                    }
                } else {
                    assert(arch[l.archetype as int] == old(self).spec_archetypes()[l.archetype as int]);
                }
            }
        }
        Ok(true)
    }

    /// Returns true if `entity` names a live entity.
    pub fn contains(&self, entity: Entity) -> (r: bool)
        ensures
            r == self.spec_contains(entity),
    {
        self.entities.contains(entity)
    }

    /// The archetype whose signature is the sorted components `sorted`,
    /// created if the world has none yet.
    fn archetype_for(&mut self, sorted: &Vec<ComponentInfo>) -> (r: Result<usize, SpawnError>)
        requires
            old(self).wf(),
            sorted_by_id(sorted@),
        ensures
            final(self).wf(),
            final(self).spec_entities() == old(self).spec_entities(),
            final(self).spec_limits() == old(self).spec_limits(),
            forall|b: int|
                0 <= b < old(self).spec_archetypes().len() ==> #[trigger] final(self).spec_archetypes()[b]
                    == old(self).spec_archetypes()[b],
            old(self).spec_archetypes().len() <= final(self).spec_archetypes().len(),
            r.is_ok() ==> {
                let a = r.unwrap() as int;
                &&& 0 <= a < final(self).spec_archetypes().len()
                &&& final(self).spec_archetypes()[a].spec_ids() == ids_of(sorted@)
                &&& (a >= old(self).spec_archetypes().len() ==> final(self).spec_archetypes()[a].spec_len() == 0)
            },
            r.is_err() ==> *final(self) == *old(self) && !old(self).spec_map().contains_key(
                key_of(ids_of(sorted@)),
            ),
            r matches Err(SpawnError::TooManyArchetypes) ==> old(self).spec_archetypes().len() == MAX_ARCHETYPES,
            r matches Err(SpawnError::EntityTooLarge) ==> !layout_fits(sorted@, old(self).spec_limits()),
            r.is_err() ==> r matches Err(SpawnError::TooManyArchetypes) || r matches Err(SpawnError::EntityTooLarge),
            old(self).spec_map().contains_key(key_of(ids_of(sorted@))) ==> r.is_ok() && *final(self) == *old(self),
            final(self).spec_archetypes().len() == old(self).spec_archetypes().len() || (final(self).spec_archetypes().len()
                == old(self).spec_archetypes().len() + 1 && !old(self).spec_map().contains_key(key_of(ids_of(sorted@)))),
            !old(self).spec_map().contains_key(key_of(ids_of(sorted@))) && old(self).spec_archetypes().len()
                == MAX_ARCHETYPES ==> r matches Err(SpawnError::TooManyArchetypes),
    {
        let key = key_of_components(sorted);
        match lookup_signature(&self.archetype_map, &key) {
            Some(a) => {
                proof {
                    assert(self.spec_map().contains_key(key@));
                    lemma_key_injective(self.spec_archetypes()[a as int].spec_ids(), ids_of(sorted@));
                }
                Ok(a)
            },
            None => {
                if self.archetypes.len() >= MAX_ARCHETYPES {
                    return Err(SpawnError::TooManyArchetypes);
                }
                let archetype = match Archetype::new(sorted, &self.limits) {
                    Ok(x) => x,
                    Err(_) => {
                        return Err(SpawnError::EntityTooLarge);
                    },
                };
                let idx = self.archetypes.len();
                let ghost old_map = self.spec_map();
                let storage = ArchetypeStorage::new(archetype);
                proof {
                    assert forall|k: int| 0 <= k < sorted@.len() implies #[trigger] storage.spec_ids()[k]
                        == ids_of(sorted@)[k] by {}
                    assert(storage.spec_ids() =~= ids_of(sorted@));
                }
                self.archetypes.push(storage);
                record_signature(&mut self.archetype_map, key, idx);
                proof {
                    let arch = self.spec_archetypes();
                    assert(arch[idx as int] == storage);
                    assert forall|b: int| 0 <= b < arch.len() implies self.spec_map().contains_key(
                        key_of((#[trigger] arch[b]).spec_ids()),
                    ) && self.spec_map()[key_of(arch[b].spec_ids())] == b by {
                        if b < idx {
                            assert(arch[b] == old(self).spec_archetypes()[b]);
                            assert(old_map.contains_key(key_of(arch[b].spec_ids())));
                            assert(key_of(arch[b].spec_ids()) != key@);
                        }
                    }
                    assert forall|k: Seq<u64>| #[trigger] self.spec_map().contains_key(k) implies self.spec_map()[k]
                        < arch.len() && key_of(arch[self.spec_map()[k] as int].spec_ids()) == k by {
                        if k != key@ {
                            assert(old_map.contains_key(k));
                            assert(arch[old_map[k] as int] == old(self).spec_archetypes()[old_map[k] as int]);
                        }
                    }
                    let ents = self.spec_entities();
                    assert forall|i: int|
                        0 <= i < ents.spec_entries().len() && (#[trigger] ents.spec_entries()[i]).alive implies {
                        let loc = ents.spec_entries()[i].location;
                        &&& loc.archetype < arch.len()
                        &&& loc.index < arch[loc.archetype as int].spec_len()
                        &&& arch[loc.archetype as int].spec_entity(loc.index as int) == i
                    } by {
                        let loc = ents.spec_entries()[i].location;
                        assert(arch[loc.archetype as int] == old(self).spec_archetypes()[loc.archetype as int]);
                    }
                    assert forall|a: int, r: int| 0 <= a < arch.len() && 0 <= r < arch[a].spec_len() implies {
                        let i = #[trigger] arch[a].spec_entity(r);
                        &&& i < ents.spec_entries().len()
                        &&& ents.spec_entries()[i as int].alive
                        &&& ents.spec_entries()[i as int].location == Location {
                            archetype: a as usize,
                            index: r as usize,
                        }
                    } by {
                        assert(arch[a] == old(self).spec_archetypes()[a]);
                    }
                }
                Ok(idx)
            },
        }
    }

    /// What a successful `despawn` of `e` leaves: the handle is invalid, and
    /// its slot is dead with the next generation, or retired for good.
    pub open spec fn despawn_result(&self, next: &World, e: Entity) -> bool {
        let i = e.spec_index();
        let entries = next.spec_entities().spec_entries();
        &&& !next.spec_contains(e)
        &&& !entries[i].alive
        &&& entries[i].gen == e.spec_generation() + 1 || next.spec_entities().spec_retired(i)
        &&& self.spec_entities().generations_grow(&next.spec_entities())
    }

    /// `next` keeps what `self` has: every archetype with its descriptor and
    /// at least its rows, every entity slot, the chunk limits, and the
    /// location of every live entity.
    pub open spec fn extends(&self, next: &World) -> bool {
        &&& self.spec_archetypes().len() <= next.spec_archetypes().len()
        &&& forall|b: int|
            0 <= b < self.spec_archetypes().len() ==> (#[trigger] next.spec_archetypes()[b]).spec_archetype()
                == self.spec_archetypes()[b].spec_archetype() && self.spec_archetypes()[b].spec_len()
                <= next.spec_archetypes()[b].spec_len()
        &&& self.spec_entities().spec_entries().len() <= next.spec_entities().spec_entries().len()
        &&& next.spec_limits() == self.spec_limits()
        &&& forall|e: Entity|
            #[trigger] self.spec_contains(e) ==> next.spec_entities().spec_location(e)
                == self.spec_entities().spec_location(e)
    }

    /// Entities live before and after keep their components.
    pub open spec fn keeps_entities(&self, next: &World) -> bool {
        forall|e: Entity|
            #[trigger] self.spec_contains(e) ==> next.spec_contains(e) && forall|id: ComponentId|
                #[trigger] next.spec_get(e, id) == self.spec_get(e, id)
    }

    /// Spawns an entity with the components of `bundle`, which must be
    /// distinct. The entity lands in the archetype of its signature, created
    /// on first use.
    pub fn spawn<B: Bundle>(&mut self, bundle: B) -> (r: Result<Entity, SpawnError>)
        requires
            old(self).wf(),
            distinct_ids(bundle.spec_components()),
        ensures
            final(self).wf(),
            old(self).keeps_entities(final(self)),
            old(self).extends(final(self)),
            forall|s: Seq<ComponentInfo>|
                #![trigger ids_of(s)]
                sorted_by_id(s) && s.to_multiset() == bundle.spec_components().to_multiset() ==> {
                    let key = key_of(ids_of(s));
                    &&& old(self).spec_map().contains_key(key) ==> final(self).spec_archetypes().len()
                        == old(self).spec_archetypes().len()
                    &&& !old(self).spec_map().contains_key(key) ==> final(self).spec_archetypes().len()
                        <= old(self).spec_archetypes().len() + 1
                    &&& !old(self).spec_map().contains_key(key) && old(self).spec_archetypes().len() == MAX_ARCHETYPES
                        ==> (r matches Err(SpawnError::TooManyArchetypes)) && *final(self) == *old(self)
                },
            forall|e: Entity| #[trigger] final(self).spec_contains(e) ==> old(self).spec_contains(e) || r == Ok::<
                Entity,
                SpawnError,
            >(e),
            r.is_ok() ==> {
                let e = r.unwrap();
                let cols = final(self).spec_storage_of(e).spec_archetype().spec_components();
                &&& final(self).spec_contains(e)
                &&& !old(self).spec_contains(e)
                &&& old(self).spec_entities().reuses(e)
                &&& exists|s: Seq<ComponentInfo>|
                    sorted_by_id(s) && s.to_multiset() == bundle.spec_components().to_multiset()
                        && #[trigger] final(self).spec_storage_of(e).spec_ids() == ids_of(s)
                &&& forall|id: ComponentId|
                    #[trigger] final(self).spec_get(e, id).is_some() <==> ids_of_infos(
                        bundle.spec_components(),
                    ).contains(id)
                &&& forall|k: int|
                    0 <= k < cols.len() ==> #[trigger] final(self).spec_get(e, cols[k].id) == bundle.spec_init(
                        cols,
                    )[k]
            },
            r matches Err(SpawnError::TooManyArchetypes) ==> old(self).spec_archetypes().len() == MAX_ARCHETYPES,
            r matches Err(SpawnError::TooManyEntities) ==> (old(self).spec_entities().spec_ready().len() == 0
                && old(self).spec_entities().spec_entries().len() == MAX_ENTITIES) || exists|a: int, s: Seq<ComponentInfo>|
                0 <= a < final(self).spec_archetypes().len() && final(self).spec_archetypes()[a].spec_len()
                    == MAX_ROWS && sorted_by_id(s) && s.to_multiset() == bundle.spec_components().to_multiset()
                    && #[trigger] final(self).spec_archetypes()[a].spec_ids() == #[trigger] ids_of(s),
            r matches Err(SpawnError::EntityTooLarge) ==> exists|s: Seq<ComponentInfo>|
                sorted_by_id(s) && s.to_multiset() == bundle.spec_components().to_multiset()
                    && !layout_fits(s, old(self).spec_limits()),
            r matches Err(SpawnError::IncompleteBundle(_)) ==> exists|a: int, k: int|
                0 <= a < final(self).spec_archetypes().len() && 0 <= k
                    < final(self).spec_archetypes()[a].spec_archetype().spec_components().len()
                    && (#[trigger] bundle.spec_init(
                    final(self).spec_archetypes()[a].spec_archetype().spec_components(),
                )[k]).is_none(),
    {
        let infos = bundle.with_components();
        let sorted = sort_components(&infos);
        proof {
            assert forall|s: Seq<ComponentInfo>|
                sorted_by_id(s) && s.to_multiset() == bundle.spec_components().to_multiset() implies s == sorted@ by {
                crate::archetype::lemma_sorted_unique(s, sorted@);
            }
        }
        let a = match self.archetype_for(&sorted) {
            Ok(a) => a,
            Err(err) => {
                proof {
                    assert(old(self).extends(self));
                    if err is EntityTooLarge {
                        assert(sorted@.to_multiset() == bundle.spec_components().to_multiset());
                    }
                }
                return Err(err);
            },
        };
        let ghost mid = *self;
        proof {
            assert(old(self).keeps_entities(&mid)) by {
                assert forall|e2: Entity| #[trigger] old(self).spec_contains(e2) implies mid.spec_contains(e2)
                    && forall|id: ComponentId| #[trigger] mid.spec_get(e2, id) == old(self).spec_get(e2, id) by {
                    let loc = old(self).spec_entities().spec_location(e2);
                    assert(old(self).spec_entities().spec_entries()[e2.spec_index()].alive);
                    assert(mid.spec_archetypes()[loc.archetype as int] == old(self).spec_archetypes()[loc.archetype as int]);
                }
            }
        }
        if self.archetypes[a].len() >= MAX_ROWS {
            proof {
                assert(self.spec_archetypes()[a as int].wf());
            }
            return Err(SpawnError::TooManyEntities);
        }
        let e = match self.entities.spawn() {
            Ok(e) => e,
            Err(_) => {
                return Err(SpawnError::TooManyEntities);
            },
        };
        let ghost after_spawn = self.entities;
        let ghost i = e.spec_index();
        proof {
            assert(!mid.spec_entities().spec_valid(e));
            assert forall|b: int, r: int|
                0 <= b < mid.spec_archetypes().len() && 0 <= r < mid.spec_archetypes()[b].spec_len() implies #[trigger] mid.spec_archetypes()[b].spec_entity(r) != i by {
                let x = mid.spec_archetypes()[b].spec_entity(r);
                assert(mid.spec_entities().spec_entries()[x as int].alive);
            }
        }
        let ghost places = self.archetypes[a as int].bundle_places(bundle);
        let ghost cols = self.archetypes[a as int].spec_archetype().spec_components();
        let result = self.archetypes[a].insert(bundle, e.index() as u64);
        match result {
            Ok(row) => {
                let ghost st0 = mid.spec_archetypes()[a as int];
                let ghost st1 = self.spec_archetypes()[a as int];
                self.entities.relocate(e, Location { archetype: a, index: row });
                proof {
                    let arch = self.spec_archetypes();
                    let ents = self.spec_entities();
                    let mid_ents = mid.spec_entities();
                    assert(arch == mid.spec_archetypes().update(a as int, st1));
                    assert(st1.spec_ids() == st0.spec_ids());
                    assert forall|b: int| 0 <= b < arch.len() implies (#[trigger] arch[b]).wf() by {
                        if b != a {
                            assert(arch[b] == mid.spec_archetypes()[b]);
                        }
                    }
                    assert forall|b: int| 0 <= b < arch.len() implies self.spec_map().contains_key(
                        key_of((#[trigger] arch[b]).spec_ids()),
                    ) && self.spec_map()[key_of(arch[b].spec_ids())] == b by {
                        assert(mid.spec_map().contains_key(key_of(mid.spec_archetypes()[b].spec_ids())));
                    }
                    assert forall|k: Seq<u64>| #[trigger] self.spec_map().contains_key(k) implies self.spec_map()[k]
                        < arch.len() && key_of(arch[self.spec_map()[k] as int].spec_ids()) == k by {
                        assert(mid.spec_map().contains_key(k));
                    }
                    assert(st1.spec_entity(row as int) == i);
                    assert forall|j: int|
                        0 <= j < ents.spec_entries().len() && (#[trigger] ents.spec_entries()[j]).alive implies {
                        let loc = ents.spec_entries()[j].location;
                        &&& loc.archetype < arch.len()
                        &&& loc.index < arch[loc.archetype as int].spec_len()
                        &&& arch[loc.archetype as int].spec_entity(loc.index as int) == j
                    } by {
                        if j != i {
                            assert(ents.spec_entries()[j] == after_spawn.spec_entries()[j]);
                            assert(mid_ents.spec_entries()[j] == after_spawn.spec_entries()[j]);
                            assert(mid_ents.spec_entries()[j].alive);
                            let loc = mid_ents.spec_entries()[j].location;
                            if loc.archetype == a {
                                assert(st1.spec_entity(loc.index as int) == st0.spec_entity(loc.index as int));
                            }
                        }
                    }
                    assert forall|b: int, r: int| 0 <= b < arch.len() && 0 <= r < arch[b].spec_len() implies {
                        let x = #[trigger] arch[b].spec_entity(r);
                        &&& x < ents.spec_entries().len()
                        &&& ents.spec_entries()[x as int].alive
                        &&& ents.spec_entries()[x as int].location == Location {
                            archetype: b as usize,
                            index: r as usize,
                        }
                    } by {
                        if b == a && r == row {
                        } else {
                            let x = arch[b].spec_entity(r);
                            if b == a {
                                assert(st1.spec_entity(r) == st0.spec_entity(r));
                            } else {
                                assert(arch[b] == mid.spec_archetypes()[b]);
                            }
                            assert(mid.spec_archetypes()[b].spec_entity(r) == x);
                            assert(x != i);
                            assert(ents.spec_entries()[x as int] == mid_ents.spec_entries()[x as int]);
                        }
                    }
                    assert(self.wf());
                    // Entities that were live keep their components.
                    assert forall|e2: Entity| #[trigger] old(self).spec_contains(e2) implies self.spec_contains(e2)
                        && forall|id: ComponentId| #[trigger] self.spec_get(e2, id) == old(self).spec_get(e2, id) by {
                        assert(mid.spec_contains(e2));
                        let j = e2.spec_index();
                        assert(j != i);
                        assert(ents.spec_entries()[j] == mid_ents.spec_entries()[j]);
                        let loc = mid_ents.spec_entries()[j].location;
                        assert(mid_ents.spec_entries()[j].alive);
                        assert(loc.archetype < old(self).spec_archetypes().len()) by {
                            assert(old(self).spec_entities().spec_entries()[j] == mid_ents.spec_entries()[j]);
                        }
                        assert(mid.spec_archetypes()[loc.archetype as int] == old(self).spec_archetypes()[loc.archetype as int]);
                        assert forall|id: ComponentId| #[trigger] self.spec_get(e2, id) == old(self).spec_get(e2, id) by {
                            if loc.archetype == a {
                                let st = st1;
                                if st.spec_ids().contains(id) {
                                    let k = st.spec_ids().index_of(id);
                                    assert(st1.spec_value(loc.index as int, k) == st0.spec_value(loc.index as int, k));
                                }
                            }
                        }
                    }
                    assert forall|e2: Entity| #[trigger] self.spec_contains(e2) implies old(self).spec_contains(e2)
                        || e2 == e by {
                        if e2.spec_index() == i {
                            Entity::lemma_same_handle(e2, e);
                        } else {
                            assert(ents.spec_entries()[e2.spec_index()] == mid_ents.spec_entries()[e2.spec_index()]);
                            assert(old(self).spec_entities() == mid_ents);
                        }
                    }
                    // The new entity holds exactly the bundle's components.
                    let cols = st1.spec_archetype().spec_components();
                    assert(self.spec_storage_of(e) == st1);
                    assert(st1.spec_ids() == ids_of(sorted@));
                    assert forall|id: ComponentId| #[trigger] self.spec_get(e, id).is_some() <==> ids_of_infos(
                        bundle.spec_components(),
                    ).contains(id) by {
                        lemma_same_ids(sorted@, infos@, id);
                    }
                    assert forall|k: int| 0 <= k < cols.len() implies #[trigger] self.spec_get(e, cols[k].id)
                        == bundle.spec_init(cols)[k] by {
                        st1.spec_archetype().lemma_index_of(k);
                        assert(st1.spec_ids()[k] == cols[k].id);
                    }
                    assert(sorted@.to_multiset() == bundle.spec_components().to_multiset());
                    assert(self.spec_storage_of(e).spec_ids() == ids_of(sorted@));
                }
                Ok(e)
            },
            Err(inc) => {
                self.entities.despawn(e);
                proof {
                    assert(self.spec_archetypes() =~= mid.spec_archetypes());
                    let ents = self.spec_entities();
                    let mid_ents = mid.spec_entities();
                    assert forall|j: int|
                        0 <= j < ents.spec_entries().len() && (#[trigger] ents.spec_entries()[j]).alive implies
                        j < mid_ents.spec_entries().len() && ents.spec_entries()[j] == mid_ents.spec_entries()[j] by {
                        assert(j != i);
                        assert(ents.spec_entries()[j] == after_spawn.spec_entries()[j]);
                    }
                    assert forall|b: int, r: int|
                        0 <= b < mid.spec_archetypes().len() && 0 <= r < mid.spec_archetypes()[b].spec_len() implies {
                        let x = #[trigger] mid.spec_archetypes()[b].spec_entity(r);
                        &&& x < ents.spec_entries().len()
                        &&& ents.spec_entries()[x as int].alive
                        &&& ents.spec_entries()[x as int].location == Location {
                            archetype: b as usize,
                            index: r as usize,
                        }
                    } by {
                        let x = mid.spec_archetypes()[b].spec_entity(r);
                        assert(x != i);
                        assert(ents.spec_entries()[x as int] == after_spawn.spec_entries()[x as int]);
                    }
                    assert(self.wf());
                    assert forall|e2: Entity| #[trigger] old(self).spec_contains(e2) implies self.spec_contains(e2)
                        && forall|id: ComponentId| #[trigger] self.spec_get(e2, id) == old(self).spec_get(e2, id) by {
                        assert(mid.spec_contains(e2));
                        let j = e2.spec_index();
                        assert(j != i);
                        assert(ents.spec_entries()[j] == after_spawn.spec_entries()[j]);
                        let loc = mid_ents.spec_entries()[j].location;
                        assert(mid.spec_archetypes()[loc.archetype as int] == old(self).spec_archetypes()[loc.archetype as int]);
                    }
                    assert forall|e2: Entity| #[trigger] self.spec_contains(e2) implies old(self).spec_contains(e2) by {
                        let j = e2.spec_index();
                        assert(j != i);
                        assert(ents.spec_entries()[j] == after_spawn.spec_entries()[j]);
                    }
                    let st = mid.spec_archetypes()[a as int];
                    assert(!(forall|k: int| 0 <= k < cols.len() ==> (#[trigger] places[k]).is_some()));
                    let k = choose|k: int| 0 <= k < cols.len() && !(#[trigger] places[k]).is_some();
                    assert(bundle.spec_init(self.spec_archetypes()[a as int].spec_archetype().spec_components())[k].is_none());
                }
                Err(SpawnError::IncompleteBundle(inc))
            },
        }
    }

    /// What a spawn of `b` that gave `res` means for this world: an entity
    /// it created is live with exactly `b`'s components and the bytes `b`
    /// wrote; an error had its cause.
    pub open spec fn spawn_result<B: Bundle>(&self, b: B, res: Result<Entity, SpawnError>) -> bool {
        match res {
            Ok(e) => {
                let cols = self.spec_storage_of(e).spec_archetype().spec_components();
                &&& self.spec_contains(e)
                &&& forall|id: ComponentId|
                    #[trigger] self.spec_get(e, id).is_some() <==> ids_of_infos(b.spec_components()).contains(id)
                &&& forall|k: int| 0 <= k < cols.len() ==> #[trigger] self.spec_get(e, cols[k].id) == b.spec_init(cols)[k]
            },
            Err(SpawnError::EntityTooLarge) => exists|s: Seq<ComponentInfo>|
                sorted_by_id(s) && s.to_multiset() == b.spec_components().to_multiset() && !#[trigger] layout_fits(
                    s,
                    self.spec_limits(),
                ),
            Err(SpawnError::TooManyArchetypes) => self.spec_archetypes().len() == MAX_ARCHETYPES,
            Err(SpawnError::TooManyEntities) => self.spec_entities().spec_entries().len() == MAX_ENTITIES || exists|
                a: int,
            | 0 <= a < self.spec_archetypes().len() && (#[trigger] self.spec_archetypes()[a]).spec_len() == MAX_ROWS,
            Err(SpawnError::IncompleteBundle(_)) => exists|a: int, k: int|
                0 <= a < self.spec_archetypes().len() && 0 <= k
                    < self.spec_archetypes()[a].spec_archetype().spec_components().len() && (#[trigger] b.spec_init(
                    self.spec_archetypes()[a].spec_archetype().spec_components(),
                )[k]).is_none(),
        }
    }

    /// Spawns one entity per bundle, in order; each result is what `spawn`
    /// gives for that bundle at its turn.
    pub fn insert<B: Bundle>(&mut self, bundles: Vec<B>) -> (r: Vec<Result<Entity, SpawnError>>)
        requires
            old(self).wf(),
            forall|k: int| 0 <= k < bundles@.len() ==> distinct_ids((#[trigger] bundles@[k]).spec_components()),
        ensures
            final(self).wf(),
            r@.len() == bundles@.len(),
            old(self).keeps_entities(final(self)),
            old(self).extends(final(self)),
            forall|k: int| 0 <= k < r@.len() ==> #[trigger] final(self).spawn_result(bundles@[k], r@[k]),
    {
        let ghost orig = bundles@;
        let n = bundles.len();
        let mut rest = bundles;
        let mut r: Vec<Result<Entity, SpawnError>> = Vec::new();
        let mut k: usize = 0;
        while k < n
            invariant
                0 <= k <= n,
                n == orig.len(),
                rest@ == orig.subrange(k as int, n as int),
                r@.len() == k,
                self.wf(),
                forall|x: int| 0 <= x < orig.len() ==> distinct_ids((#[trigger] orig[x]).spec_components()),
                old(self).keeps_entities(self),
                old(self).extends(self),
                old(self).wf(),
                forall|x: int| 0 <= x < k ==> #[trigger] self.spawn_result(orig[x], r@[x]),
            decreases n - k,
        {
            let ghost rest_before = rest@;
            let bundle = rest.remove(0);
            let ghost before = *self;
            proof {
                assert(bundle == orig[k as int]);
                assert(rest@ =~= orig.subrange(k + 1, n as int));
            }
            let result = self.spawn(bundle);
            proof {
                assert forall|e: Entity| #[trigger] old(self).spec_contains(e) implies self.spec_contains(e)
                    && forall|id: ComponentId| #[trigger] self.spec_get(e, id) == old(self).spec_get(e, id) by {
                    assert(before.spec_contains(e));
                    assert forall|id: ComponentId| #[trigger] self.spec_get(e, id) == old(self).spec_get(e, id) by {
                        assert(before.spec_get(e, id) == old(self).spec_get(e, id));
                    }
                }
                lemma_extends_trans(*old(self), before, *self);
                assert forall|x: int| 0 <= x < k implies #[trigger] self.spawn_result(orig[x], r@[x]) by {
                    lemma_spawn_result_kept(before, *self, orig[x], r@[x]);
                }
                lemma_spawn_result_now(before, *self, orig[k as int], result);
            }
            let ghost old_r = r@;
            r.push(result);
            proof {
                assert forall|x: int| 0 <= x < k + 1 implies #[trigger] self.spawn_result(orig[x], r@[x]) by {
                    if x < k {
                        assert(r@[x] == old_r[x]);
                    }
                }
            }
            k = k + 1;
        }
        r
    }

    /// Despawns `entity`: its row is removed, the last row of its archetype
    /// moves into the gap, and the handle becomes invalid for good.
    pub fn despawn(&mut self, entity: Entity) -> (r: Result<(), NoSuchEntity>)
        requires
            old(self).wf(),
        ensures
            final(self).wf(),
            r.is_err() <==> !old(self).spec_contains(entity),
            r.is_err() ==> *final(self) == *old(self),
            r.is_ok() ==> old(self).despawn_result(final(self), entity),
            forall|e: Entity|
                #[trigger] old(self).spec_contains(e) && e != entity ==> final(self).spec_contains(e) && forall|id: ComponentId|
                    #[trigger] final(self).spec_get(e, id) == old(self).spec_get(e, id),
            forall|e: Entity| #[trigger] final(self).spec_contains(e) ==> old(self).spec_contains(e),
    {
        let loc = match self.entities.locate(entity) {
            None => {
                return Err(NoSuchEntity);
            },
            Some(l) => l,
        };
        let ghost i = entity.spec_index();
        let ghost a = loc.archetype as int;
        let ghost row = loc.index as int;
        let ghost ents0 = self.spec_entities();
        let ghost arch0 = self.spec_archetypes();
        let ghost st0 = arch0[a];
        let ghost last = st0.spec_len() - 1;
        proof {
            assert(ents0.spec_entries()[i].alive);
        }
        let moved = self.archetypes[loc.archetype].swap_remove(loc.index);
        let ghost st1 = self.spec_archetypes()[a];
        let ghost m = st0.spec_entity(last) as int;
        proof {
            assert(self.spec_archetypes() == arch0.update(a, st1));
            assert(st0.spec_entity(row) == i);
            if row != last {
                assert(m < ents0.spec_entries().len());
                assert(ents0.spec_entries()[m].location == Location { archetype: a as usize, index: last as usize });
                assert(m != i);
            }
        }
        match moved {
            Some(mi) => {
                let h = self.entities.handle(mi as usize);
                proof {
                    assert(mi == m);
                    assert(ents0.spec_entries()[m].alive);
                }
                let h = h.unwrap();
                self.entities.relocate(h, loc);
            },
            None => {},
        }
        let ghost ents1 = self.spec_entities();
        proof {
            assert(ents1.spec_valid(entity));
        }
        self.entities.despawn(entity);
        proof {
            let arch = self.spec_archetypes();
            let ents = self.spec_entities();
            assert(ents.spec_entries().len() == ents0.spec_entries().len());
            assert forall|j: int| 0 <= j < ents.spec_entries().len() && j != i && j != m implies #[trigger] ents.spec_entries()[j]
                == ents0.spec_entries()[j] by {
                assert(ents.spec_entries()[j] == ents1.spec_entries()[j]);
            }
            assert(row != last ==> ents.spec_entries()[m] == (crate::entity::Entry {
                location: loc,
                gen: ents0.spec_entries()[m].gen,
                alive: true,
            })) by {
                if row != last {
                    assert(ents.spec_entries()[m] == ents1.spec_entries()[m]);
                }
            }
            assert(row == last ==> ents.spec_entries()[m] == ents0.spec_entries()[m] || m == i) by {
                if row == last && m != i {
                    assert(ents.spec_entries()[m] == ents1.spec_entries()[m]);
                }
            }
            assert(row == last ==> m == i);
            assert forall|b: int| 0 <= b < arch.len() implies (#[trigger] arch[b]).wf() by {
                if b != a {
                    assert(arch[b] == arch0[b]);
                }
            }
            assert(st1.spec_ids() == st0.spec_ids());
            assert forall|b: int| 0 <= b < arch.len() implies self.spec_map().contains_key(
                key_of((#[trigger] arch[b]).spec_ids()),
            ) && self.spec_map()[key_of(arch[b].spec_ids())] == b by {
                assert(old(self).spec_map().contains_key(key_of(arch0[b].spec_ids())));
            }
            assert forall|k: Seq<u64>| #[trigger] self.spec_map().contains_key(k) implies self.spec_map()[k]
                < arch.len() && key_of(arch[self.spec_map()[k] as int].spec_ids()) == k by {
                assert(old(self).spec_map().contains_key(k));
            }
            assert forall|j: int|
                0 <= j < ents.spec_entries().len() && (#[trigger] ents.spec_entries()[j]).alive implies {
                let l = ents.spec_entries()[j].location;
                &&& l.archetype < arch.len()
                &&& l.index < arch[l.archetype as int].spec_len()
                &&& arch[l.archetype as int].spec_entity(l.index as int) == j
            } by {
                assert(j != i);
                if j == m {
                } else {
                    assert(ents0.spec_entries()[j].alive);
                    let l = ents0.spec_entries()[j].location;
                    if l.archetype as int == a {
                        assert(l.index as int != row);
                        assert(l.index as int != last);
                    } else {
                        assert(arch[l.archetype as int] == arch0[l.archetype as int]);
                    }
                }
            }
            assert forall|b: int, r: int| 0 <= b < arch.len() && 0 <= r < arch[b].spec_len() implies {
                let x = #[trigger] arch[b].spec_entity(r);
                &&& x < ents.spec_entries().len()
                &&& ents.spec_entries()[x as int].alive
                &&& ents.spec_entries()[x as int].location == Location { archetype: b as usize, index: r as usize }
            } by {
                if b == a && r == row {
                    assert(arch[b].spec_entity(r) == m);
                } else {
                    let x = arch[b].spec_entity(r);
                    if b == a {
                        assert(st1.spec_entity(r) == st0.spec_entity(r));
                        assert(r != last);
                    } else {
                        assert(arch[b] == arch0[b]);
                    }
                    assert(arch0[b].spec_entity(r) == x);
                    assert(ents0.spec_entries()[x as int].location == Location { archetype: b as usize, index: r as usize });
                    assert(x != i);
                    assert(x != m);
                }
            }
            assert(self.wf());
            assert forall|e: Entity| #[trigger] old(self).spec_contains(e) && e != entity implies self.spec_contains(e)
                && forall|id: ComponentId| #[trigger] self.spec_get(e, id) == old(self).spec_get(e, id) by {
                let j = e.spec_index();
                if j == i {
                    Entity::lemma_same_handle(e, entity);
                }
                let l0 = ents0.spec_entries()[j].location;
                assert(ents0.spec_entries()[j].alive);
                if j == m {
                    assert forall|id: ComponentId| #[trigger] self.spec_get(e, id) == old(self).spec_get(e, id) by {
                        if st0.spec_ids().contains(id) {
                            let k = st0.spec_ids().index_of(id);
                            assert(st1.spec_value(row, k) == st0.spec_value(last, k));
                        }
                    }
                } else {
                    assert(ents.spec_entries()[j] == ents0.spec_entries()[j]);
                    assert forall|id: ComponentId| #[trigger] self.spec_get(e, id) == old(self).spec_get(e, id) by {
                        if l0.archetype as int == a {
                            assert(l0.index as int != row);
                            assert(l0.index as int != last);
                            if st0.spec_ids().contains(id) {
                                let k = st0.spec_ids().index_of(id);
                                assert(st1.spec_value(l0.index as int, k) == st0.spec_value(l0.index as int, k));
                            }
                        } else {
                            assert(arch[l0.archetype as int] == arch0[l0.archetype as int]);
                        }
                    }
                }
            }
            assert forall|e: Entity| #[trigger] self.spec_contains(e) implies old(self).spec_contains(e) by {
                let j = e.spec_index();
                assert(j != i);
                if j != m {
                    assert(ents.spec_entries()[j] == ents0.spec_entries()[j]);
                }
            }
        }
        Ok(())
    }
}

/// The rows a query shows of one archetype it visits.
#[derive(Debug)]
pub struct ArchetypeRows {
    pub archetype: usize,
    pub rows: Vec<Fetched>,
    /// The live entity of each row, to read or write it back by handle.
    pub entities: Vec<Entity>,
}

impl World {
    /// `r` lists, in increasing order, exactly the archetypes `q` visits.
    pub open spec fn lists_visited(&self, q: Query, r: Seq<usize>) -> bool {
        &&& forall|j: int, k: int| 0 <= j < k < r.len() ==> r[j] < r[k]
        &&& forall|j: int|
            0 <= j < r.len() ==> r[j] < self.spec_archetypes().len() && q.spec_filter(
                self.spec_archetypes()[r[j] as int].spec_ids(),
            )
        &&& forall|a: int|
            0 <= a < self.spec_archetypes().len() && q.spec_filter(#[trigger] self.spec_archetypes()[a].spec_ids())
                ==> r.contains(a as usize)
    }

    /// Indices of the archetypes `q` visits, in increasing order.
    pub fn query_archetypes(&self, q: &Query) -> (r: Vec<usize>)
        requires
            self.wf(),
        ensures
            self.lists_visited(*q, r@),
    {
        let mut r: Vec<usize> = Vec::new();
        let mut a: usize = 0;
        while a < self.archetypes.len()
            invariant
                0 <= a <= self.spec_archetypes().len(),
                forall|j: int, k: int| 0 <= j < k < r@.len() ==> r@[j] < r@[k],
                forall|j: int| 0 <= j < r@.len() ==> r@[j] < a,
                forall|j: int|
                    0 <= j < r@.len() ==> q.spec_filter(self.spec_archetypes()[r@[j] as int].spec_ids()),
                forall|b: int|
                    0 <= b < a && q.spec_filter(#[trigger] self.spec_archetypes()[b].spec_ids()) ==> r@.contains(
                        b as usize,
                    ),
            decreases self.spec_archetypes().len() - a,
        {
            if q.filter_archetype(self.archetypes[a].archetype()) {
                let ghost before = r@;
                r.push(a);
                proof {
                    assert forall|b: int|
                        0 <= b < a + 1 && q.spec_filter(#[trigger] self.spec_archetypes()[b].spec_ids()) implies r@.contains(
                        b as usize,
                    ) by {
                        if b < a {
                            let j = choose|j: int| 0 <= j < before.len() && before[j] == b as usize;
                            assert(r@[j] == b as usize);
                        } else {
                            assert(r@[r@.len() - 1] == b as usize);
                        }
                    }
                }
            }
            a = a + 1;
        }
        r
    }

    /// The rows `q` shows, archetype by archetype in increasing order, and
    /// row by row within each.
    pub fn query(&self, q: &Query) -> (r: Vec<ArchetypeRows>)
        requires
            self.wf(),
        ensures
            self.lists_visited(*q, r@.map_values(|x: ArchetypeRows| x.archetype)),
            forall|j: int|
                0 <= j < r@.len() ==> {
                    let st = self.spec_archetypes()[(#[trigger] r@[j]).archetype as int];
                    &&& r@[j].rows@.len() == st.spec_len()
                    &&& forall|row: int| 0 <= row < st.spec_len() ==> fetched_by(*q, st, row, #[trigger] r@[j].rows@[row])
                    &&& r@[j].entities@.len() == st.spec_len()
                    &&& forall|row: int|
                        0 <= row < st.spec_len() ==> self.spec_contains(#[trigger] r@[j].entities@[row])
                            && self.spec_entities().spec_location(r@[j].entities@[row]) == (Location {
                            archetype: r@[j].archetype,
                            index: row as usize,
                        })
                },
    {
        let visited = self.query_archetypes(q);
        let mut r: Vec<ArchetypeRows> = Vec::new();
        let mut j: usize = 0;
        while j < visited.len()
            invariant
                0 <= j <= visited@.len(),
                self.wf(),
                self.lists_visited(*q, visited@),
                r@.len() == j,
                forall|k: int| 0 <= k < j ==> (#[trigger] r@[k]).archetype == visited@[k],
                forall|k: int|
                    0 <= k < j ==> {
                        let st = self.spec_archetypes()[(#[trigger] r@[k]).archetype as int];
                        &&& r@[k].rows@.len() == st.spec_len()
                        &&& forall|row: int| 0 <= row < st.spec_len() ==> fetched_by(*q, st, row, #[trigger] r@[k].rows@[row])
                        &&& r@[k].entities@.len() == st.spec_len()
                        &&& forall|row: int|
                            0 <= row < st.spec_len() ==> self.spec_contains(#[trigger] r@[k].entities@[row])
                                && self.spec_entities().spec_location(r@[k].entities@[row]) == (Location {
                                archetype: r@[k].archetype,
                                index: row as usize,
                            })
                    },
            decreases visited@.len() - j,
        {
            let a = visited[j];
            let st = &self.archetypes[a];
            assert(st.wf());
            let mut rows: Vec<Fetched> = Vec::new();
            let mut entities: Vec<Entity> = Vec::new();
            let mut row: usize = 0;
            while row < st.len()
                invariant
                    0 <= row <= st.spec_len(),
                    self.wf(),
                    a < self.spec_archetypes().len(),
                    *st == self.spec_archetypes()[a as int],
                    st.wf(),
                    q.spec_filter(st.spec_ids()),
                    rows@.len() == row,
                    forall|x: int| 0 <= x < row ==> fetched_by(*q, *st, x, #[trigger] rows@[x]),
                    entities@.len() == row,
                    forall|x: int|
                        0 <= x < row ==> self.spec_contains(#[trigger] entities@[x]) && self.spec_entities().spec_location(
                            entities@[x],
                        ) == (Location { archetype: a, index: x as usize }),
                decreases st.spec_len() - row,
            {
                rows.push(q.fetch(st, row));
                let idx = st.entity_at(row);
                proof {
                    assert(idx < self.spec_entities().spec_entries().len());
                    assert(self.spec_entities().spec_entries().len() <= crate::entity::MAX_ENTITIES);
                }
                let h = self.entities.handle(idx as usize).unwrap();
                entities.push(h);
                row = row + 1;
            }
            r.push(ArchetypeRows { archetype: a, rows, entities });
            j = j + 1;
        }
        assert(r@.map_values(|x: ArchetypeRows| x.archetype) =~= visited@);
        r
    }
}

/// An archetype appears among the visited ones exactly when the query's
/// filter accepts it.
pub proof fn lemma_visited_iff_filter(w: World, q: Query, r: Seq<usize>, a: int)
    requires
        w.wf(),
        w.lists_visited(q, r),
        0 <= a < w.spec_archetypes().len(),
    ensures
        r.contains(a as usize) <==> q.spec_filter(w.spec_archetypes()[a].spec_ids()),
{
    assert(a < MAX_ARCHETYPES);
    if r.contains(a as usize) {
        let j = choose|j: int| 0 <= j < r.len() && r[j] == a as usize;
        assert(r[j] as int == a);
        assert(q.spec_filter(w.spec_archetypes()[r[j] as int].spec_ids()));
    }
    if q.spec_filter(w.spec_archetypes()[a].spec_ids()) {
        assert(r.contains(a as usize));
    }
}

/// An empty world is visited by no query.
pub proof fn lemma_empty_world_visits_nothing(w: World, q: Query, r: Seq<usize>)
    requires
        w.lists_visited(q, r),
        w.spec_archetypes().len() == 0,
    ensures
        r.len() == 0,
{
    if r.len() > 0 {
        assert(r[0] < w.spec_archetypes().len());
    }
}

/// One storage per signature: distinct archetypes of a world have distinct
/// component lists.
pub proof fn lemma_one_storage_per_signature(w: World, a: int, b: int)
    requires
        w.wf(),
        0 <= a < w.spec_archetypes().len(),
        0 <= b < w.spec_archetypes().len(),
        a != b,
    ensures
        w.spec_archetypes()[a].spec_ids() != w.spec_archetypes()[b].spec_ids(),
{
    assert(w.spec_map().contains_key(key_of(w.spec_archetypes()[a].spec_ids())));
    assert(w.spec_map().contains_key(key_of(w.spec_archetypes()[b].spec_ids())));
}

/// The order of components in a bundle does not matter: live entities
/// spawned from bundles with the same components share one storage. Here
/// `s1` and `s2` are the sorted signatures `spawn` reports for them.
pub proof fn lemma_same_components_same_storage(
    w: World,
    e1: Entity,
    e2: Entity,
    s1: Seq<ComponentInfo>,
    s2: Seq<ComponentInfo>,
)
    requires
        w.wf(),
        w.spec_contains(e1),
        w.spec_contains(e2),
        sorted_by_id(s1),
        sorted_by_id(s2),
        s1.to_multiset() == s2.to_multiset(),
        w.spec_storage_of(e1).spec_ids() == ids_of(s1),
        w.spec_storage_of(e2).spec_ids() == ids_of(s2),
    ensures
        w.spec_entities().spec_location(e1).archetype == w.spec_entities().spec_location(e2).archetype,
{
    crate::archetype::lemma_sorted_unique(s1, s2);
    let a = w.spec_entities().spec_location(e1).archetype as int;
    let b = w.spec_entities().spec_location(e2).archetype as int;
    assert(w.spec_entities().spec_entries()[e1.spec_index()].alive);
    assert(w.spec_entities().spec_entries()[e2.spec_index()].alive);
    if a != b {
        lemma_one_storage_per_signature(w, a, b);
    }
}

/// After `despawn(e)`, a spawn that reuses `e`'s slot hands out a strictly
/// greater generation, and `e` still names no live entity.
pub proof fn lemma_despawned_handle_stays_dead(
    before: World,
    after_despawn: World,
    after_spawn: World,
    e: Entity,
    reused: Entity,
)
    requires
        before.wf(),
        after_despawn.wf(),
        after_spawn.wf(),
        before.spec_contains(e),
        before.despawn_result(&after_despawn, e),
        after_despawn.spec_entities().reuses(reused),
        after_spawn.spec_contains(reused),
        reused.spec_index() == e.spec_index(),
    ensures
        reused.spec_generation() > e.spec_generation(),
        !after_spawn.spec_contains(e),
{
    let i = e.spec_index();
    let ents = after_despawn.spec_entities();
    assert(before.spec_entities().spec_entries().len() <= ents.spec_entries().len());
    if i < ents.spec_entries().len() {
        assert(ents.spec_ready().contains(i as usize));
        assert(ents.spec_entries()[i].gen == e.spec_generation() + 1);
    } else {
        assert(false);
    }
}

} // verus!
