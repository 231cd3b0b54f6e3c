use alex::archetype::{chunk_capacity, sort_components, Archetype, ArchetypeError, ChunkLimits};
use alex::access::Access;
use alex::bundle::DynamicBundle;
use alex::component::{ComponentId, ComponentInfo, Layout};
use alex::view::{read, try_read, Fetched, Or, Query};
use alex::world::{NoSuchEntity, SpawnError, World};

const FOO: ComponentId = ComponentId(1);
const BAR: ComponentId = ComponentId(2);
const TAG: ComponentId = ComponentId(3);

fn foo() -> ComponentInfo {
    ComponentInfo::new(FOO, Layout { size: 4, align: 4 }, "Foo")
}

fn bar() -> ComponentInfo {
    ComponentInfo::new(BAR, Layout { size: 4, align: 4 }, "Bar")
}

fn tag() -> ComponentInfo {
    ComponentInfo::new(TAG, Layout { size: 0, align: 1 }, "Tag")
}

fn bytes(v: u32) -> Vec<u8> {
    v.to_le_bytes().to_vec()
}

fn value(b: &[u8]) -> u32 {
    u32::from_le_bytes([b[0], b[1], b[2], b[3]])
}

fn foo_bundle(v: u32) -> DynamicBundle {
    DynamicBundle::new().with(foo(), bytes(v))
}

fn bar_bundle(v: u32) -> DynamicBundle {
    DynamicBundle::new().with(bar(), bytes(v))
}

fn values_of(world: &World, q: &Query) -> Vec<u32> {
    let mut out = Vec::new();
    for archetype in world.query(q) {
        for row in archetype.rows {
            match row {
                Fetched::Value(b) => out.push(value(&b)),
                other => panic!("unexpected row {:?}", other),
            }
        }
    }
    out.sort();
    out
}

fn scenario_b_world() -> World {
    let mut world = World::new();
    world.spawn(foo_bundle(42)).unwrap();
    world.spawn(bar_bundle(23)).unwrap();
    world
        .spawn(DynamicBundle::new().with(bar(), bytes(3)).with(foo(), bytes(11)))
        .unwrap();
    world
}

#[test]
fn single_component_round_trip() {
    let mut world = World::new();
    let a = world.spawn(foo_bundle(42)).unwrap();
    let b = world.spawn(foo_bundle(7)).unwrap();
    let c = world.spawn(foo_bundle(99)).unwrap();
    assert_eq!(value(world.get_ref(a, FOO).unwrap().unwrap()), 42);
    assert_eq!(value(world.get_ref(b, FOO).unwrap().unwrap()), 7);
    assert_eq!(value(world.get_ref(c, FOO).unwrap().unwrap()), 99);
    assert!(world.get_ref(a, BAR).unwrap().is_none());
    world.despawn(b).unwrap();
    assert_eq!(values_of(&world, &read(FOO)), vec![42, 99]);
    assert_eq!(value(world.get_ref(c, FOO).unwrap().unwrap()), 99);
}

#[test]
fn two_archetypes_mixed() {
    let world = scenario_b_world();
    assert_eq!(world.archetypes().len(), 3);
    assert_eq!(values_of(&world, &read(FOO)), vec![11, 42]);
    assert_eq!(values_of(&world, &read(BAR)), vec![3, 23]);
    let pair = Query::And(alex::view::And::new().and(read(BAR)).and(read(FOO)));
    let rows = world.query(&pair);
    let all: Vec<&Fetched> = rows.iter().flat_map(|a| a.rows.iter()).collect();
    assert_eq!(all.len(), 1);
    match all[0] {
        Fetched::All(parts) => match (&parts[0], &parts[1]) {
            (Fetched::Value(b), Fetched::Value(f)) => {
                assert_eq!(value(b), 3);
                assert_eq!(value(f), 11);
            }
            other => panic!("unexpected parts {:?}", other),
        },
        other => panic!("unexpected row {:?}", other),
    }
}

#[test]
fn or_view_rows() {
    let world = scenario_b_world();
    let q = Query::Or(Or::new(read(FOO)).or(read(BAR)));
    let mut seen = Vec::new();
    for archetype in world.query(&q) {
        for row in archetype.rows {
            match row {
                Fetched::Any(parts) => {
                    let f = parts[0].as_ref().map(|p| match p {
                        Fetched::Value(b) => value(b),
                        _ => panic!("bad part"),
                    });
                    let b = parts[1].as_ref().map(|p| match p {
                        Fetched::Value(b) => value(b),
                        _ => panic!("bad part"),
                    });
                    seen.push((f, b));
                }
                other => panic!("unexpected row {:?}", other),
            }
        }
    }
    seen.sort();
    assert_eq!(seen, vec![(None, Some(23)), (Some(11), Some(3)), (Some(42), None)]);
}

#[test]
fn filter_decides_visited_archetypes() {
    let world = scenario_b_world();
    let visited = world.query_archetypes(&read(FOO));
    assert_eq!(visited.len(), 2);
    let all = world.query_archetypes(&try_read(FOO));
    assert_eq!(all, vec![0, 1, 2]);
    let without = Query::Without(alex::view::Without::new(FOO));
    assert_eq!(world.query_archetypes(&without).len(), 1);
}

#[test]
fn try_read_yields_none_where_absent() {
    let world = scenario_b_world();
    let mut present = 0;
    let mut absent = 0;
    for archetype in world.query(&try_read(FOO)) {
        for row in archetype.rows {
            match row {
                Fetched::Maybe(Some(_)) => present += 1,
                Fetched::Maybe(None) => absent += 1,
                other => panic!("unexpected row {:?}", other),
            }
        }
    }
    assert_eq!((present, absent), (2, 1));
}

#[test]
fn incomplete_bundle_fails_and_leaves_no_row() {
    let mut world = World::new();
    let keep = world.spawn(foo_bundle(5)).unwrap();
    let bundle = DynamicBundle::new().with(foo(), bytes(1)).with_unset(bar());
    match world.spawn(bundle) {
        Err(SpawnError::IncompleteBundle(e)) => assert_eq!(e.dropped, vec![FOO]),
        other => panic!("unexpected result {:?}", other),
    }
    assert_eq!(values_of(&world, &read(FOO)), vec![5]);
    assert_eq!(values_of(&world, &read(BAR)), Vec::<u32>::new());
    assert_eq!(value(world.get_ref(keep, FOO).unwrap().unwrap()), 5);
}

#[test]
fn wrongly_sized_value_is_left_unwritten() {
    let mut world = World::new();
    let bundle = DynamicBundle::new().with(foo(), vec![1, 2]);
    assert!(matches!(world.spawn(bundle), Err(SpawnError::IncompleteBundle(_))));
}

#[test]
fn order_of_components_does_not_matter() {
    let mut world = World::new();
    let a = world
        .spawn(DynamicBundle::new().with(foo(), bytes(1)).with(bar(), bytes(2)))
        .unwrap();
    let b = world
        .spawn(DynamicBundle::new().with(bar(), bytes(3)).with(foo(), bytes(4)))
        .unwrap();
    assert_eq!(world.archetypes().len(), 1);
    assert_eq!(value(world.get_ref(a, BAR).unwrap().unwrap()), 2);
    assert_eq!(value(world.get_ref(b, FOO).unwrap().unwrap()), 4);
}

#[test]
fn despawned_handle_is_dead_and_slot_reused_with_next_generation() {
    let mut world = World::new();
    let e = world.spawn(foo_bundle(1)).unwrap();
    assert_eq!(e.generation(), 1);
    world.despawn(e).unwrap();
    assert_eq!(world.get_ref(e, FOO), Err(NoSuchEntity));
    assert_eq!(world.despawn(e), Err(NoSuchEntity));
    assert!(!world.contains(e));
    let f = world.spawn(foo_bundle(2)).unwrap();
    assert_eq!(f.index(), e.index());
    assert_eq!(f.generation(), 2);
    assert!(world.get_ref(e, FOO).is_err());
    assert_eq!(value(world.get_ref(f, FOO).unwrap().unwrap()), 2);
}

#[test]
fn despawn_moves_last_row_into_gap() {
    let mut world = World::new();
    let es: Vec<_> = (0..5).map(|i| world.spawn(foo_bundle(i)).unwrap()).collect();
    world.despawn(es[1]).unwrap();
    world.despawn(es[0]).unwrap();
    for (i, e) in es.iter().enumerate().skip(2) {
        assert_eq!(value(world.get_ref(*e, FOO).unwrap().unwrap()), i as u32);
    }
    assert_eq!(world.archetypes()[0].len(), 3);
}

#[test]
fn chunked_layout_of_many_rows() {
    let mut world = World::new();
    for i in 0..130 {
        world.spawn(foo_bundle(i)).unwrap();
    }
    let storage = &world.archetypes()[0];
    assert_eq!(storage.chunk_capacity(), 64);
    assert_eq!(storage.raw_chunks().len(), 3);
    let mut sizes = storage.chunk_sizes();
    assert_eq!(sizes.len(), 3);
    assert_eq!(sizes.last(), Some(2));
    assert_eq!(sizes.next(), Some(64));
    assert_eq!(sizes.next(), Some(64));
    assert_eq!(sizes.next(), Some(2));
    assert_eq!(sizes.next(), None);
    assert_eq!(values_of(&world, &read(FOO)).len(), 130);
}

#[test]
fn releasing_rows_releases_empty_chunks() {
    let mut world = World::new();
    let es: Vec<_> = (0..65).map(|i| world.spawn(foo_bundle(i)).unwrap()).collect();
    assert_eq!(world.archetypes()[0].raw_chunks().len(), 2);
    world.despawn(es[3]).unwrap();
    assert_eq!(world.archetypes()[0].raw_chunks().len(), 1);
    assert_eq!(world.archetypes()[0].capacity(), 64);
}

#[test]
fn zero_sized_component_round_trip() {
    let mut world = World::new();
    let e = world.spawn(DynamicBundle::new().with(tag(), Vec::new())).unwrap();
    assert_eq!(world.get_ref(e, TAG).unwrap().unwrap().len(), 0);
    assert_eq!(world.archetypes()[0].chunk_capacity(), 64);
    let both = world
        .spawn(DynamicBundle::new().with(tag(), Vec::new()).with(foo(), bytes(9)))
        .unwrap();
    assert_eq!(value(world.get_ref(both, FOO).unwrap().unwrap()), 9);
    assert_eq!(world.archetypes()[1].archetype().entity_size(), 12);
}

#[test]
fn entity_too_large_is_refused() {
    let mut world = World::new();
    let big = ComponentInfo::new(ComponentId(9), Layout { size: 70000, align: 8 }, "Big");
    let bundle = DynamicBundle::new().with(big, vec![0; 70000]);
    assert!(matches!(world.spawn(bundle), Err(SpawnError::EntityTooLarge)));
    assert_eq!(world.archetypes().len(), 0);
}

#[test]
fn empty_world_iterates_nothing() {
    let world = World::new();
    assert!(world.query(&read(FOO)).is_empty());
    assert!(world.query(&try_read(FOO)).is_empty());
    assert!(world.query_archetypes(&alex::view::write(FOO)).is_empty());
}

#[test]
fn chunk_capacity_formula() {
    let limits = ChunkLimits::standard();
    assert_eq!(chunk_capacity(&vec![foo()], &limits), Some(64));
    assert_eq!(chunk_capacity(&vec![], &limits), Some(64));
    let big = ComponentInfo::new(ComponentId(9), Layout { size: 600, align: 8 }, "Big");
    assert_eq!(chunk_capacity(&vec![big], &limits), Some(1));
    let huge = ComponentInfo::new(ComponentId(9), Layout { size: 70000, align: 8 }, "Huge");
    assert_eq!(chunk_capacity(&vec![huge], &limits), None);
    let wide = ComponentInfo::new(ComponentId(9), Layout { size: 16, align: 64 }, "Wide");
    assert_eq!(chunk_capacity(&vec![wide], &limits), Some(32));
}

#[test]
fn large_row_under_the_upper_limit_fits_with_one_row_per_chunk() {
    let large = ComponentInfo::new(ComponentId(9), Layout { size: 60000, align: 8 }, "Large");
    let a = Archetype::new(&vec![large], &ChunkLimits::standard()).unwrap();
    assert_eq!(a.chunk_capacity(), 1);
    assert_eq!(a.chunk_layout(), Layout { size: 60008, align: 8 });
    let mut world = World::new();
    let e = world.spawn(DynamicBundle::new().with(large, vec![7; 60000])).unwrap();
    assert_eq!(world.get_ref(e, ComponentId(9)).unwrap().unwrap()[59999], 7);
}

#[test]
fn columns_are_aligned_even_in_small_chunks() {
    let byte = ComponentInfo::new(ComponentId(1), Layout { size: 1, align: 1 }, "Byte");
    let word = ComponentInfo::new(ComponentId(2), Layout { size: 8, align: 8 }, "Word");
    let a = Archetype::new(&vec![word, byte], &ChunkLimits::standard()).unwrap();
    assert_eq!(a.chunk_capacity(), 32);
    assert_eq!(a.component_offset(ComponentId(1)), Some(256));
    assert_eq!(a.component_offset(ComponentId(2)), Some(288));
    let one_row = Archetype::new(&vec![byte, word], &ChunkLimits::new(8, 24).unwrap()).unwrap();
    assert_eq!(one_row.chunk_capacity(), 1);
    assert_eq!(one_row.component_offset(ComponentId(2)), Some(16));
    assert_eq!(one_row.chunk_layout(), Layout { size: 24, align: 8 });
    assert!(Archetype::new(&vec![byte, word], &ChunkLimits::new(8, 23).unwrap()).is_err());
}

#[test]
fn archetype_layout_offsets() {
    let infos = sort_components(&vec![bar(), foo()]);
    assert_eq!(infos[0].id(), FOO);
    let a = Archetype::new(&vec![bar(), foo()], &ChunkLimits::standard()).unwrap();
    assert_eq!(a.chunk_capacity(), 32);
    assert_eq!(a.entity_size(), 16);
    assert_eq!(a.chunk_layout(), Layout { size: 512, align: 8 });
    assert_eq!(a.component_offset(FOO), Some(256));
    assert_eq!(a.component_offset(BAR), Some(384));
    assert_eq!(a.component_offset(TAG), None);
    assert!(a.has(BAR));
    assert!(a.is(&vec![FOO, BAR]));
    assert!(!a.is(&vec![BAR, FOO]));
    assert_eq!(a.names(), vec!["Foo", "Bar"]);
    assert_eq!(a.ids(), vec![FOO, BAR]);
}

#[test]
fn archetype_too_large_under_small_limits() {
    let limits = ChunkLimits::new(8, 15).unwrap();
    let infos = vec![foo(), bar()];
    assert!(matches!(Archetype::new(&infos, &limits), Err(ArchetypeError::EntityIsTooLarge)));
    assert!(Archetype::new(&infos, &ChunkLimits::new(8, 16).unwrap()).is_ok());
    assert!(ChunkLimits::new(16, 8).is_none());
}

#[test]
fn limits_from_settings() {
    let l = ChunkLimits::from_settings(Some("1024"), None);
    assert_eq!((l.lower(), l.upper()), (1024, 65536));
    let d = ChunkLimits::from_settings(Some("lots"), Some("4096"));
    assert_eq!((d.lower(), d.upper()), (512, 4096));
    let bad = ChunkLimits::from_settings(Some("9000"), Some("4096"));
    assert_eq!((bad.lower(), bad.upper()), (512, 65536));
    assert_eq!(alex::archetype::chunk_upper_limit(Some("2048")), 2048);
    assert_eq!(alex::archetype::chunk_lower_limit(None), 512);
}

#[test]
fn world_with_limits_uses_them() {
    let mut world = World::with_limits(ChunkLimits::new(64, 1024).unwrap());
    world.spawn(foo_bundle(1)).unwrap();
    assert_eq!(world.archetypes()[0].chunk_capacity(), 8);
}

#[test]
fn set_component_overwrites_one_value() {
    let mut world = scenario_b_world();
    let a = world.spawn(foo_bundle(8)).unwrap();
    assert_eq!(world.set_component(a, FOO, &bytes(5)), Ok(true));
    assert_eq!(value(world.get_ref(a, FOO).unwrap().unwrap()), 5);
    assert_eq!(world.set_component(a, BAR, &bytes(5)), Ok(false));
    assert_eq!(world.set_component(a, FOO, &vec![1]), Ok(false));
    assert_eq!(values_of(&world, &read(FOO)), vec![5, 11, 42]);
    world.despawn(a).unwrap();
    assert_eq!(world.set_component(a, FOO, &bytes(1)), Err(NoSuchEntity));
}

#[test]
fn column_slices_per_chunk() {
    let mut world = World::new();
    for i in 0..70 {
        world.spawn(foo_bundle(i)).unwrap();
    }
    let storage = &world.archetypes()[0];
    let column = storage.access_component(Access::Read, FOO).unwrap();
    assert_eq!(column.len(), 2);
    assert_eq!(column.get(0).len(), 64);
    assert_eq!(column.get(1).len(), 6);
    assert_eq!(column.get(1).raw().len(), 24);
    assert_eq!(value(&column.get(1).raw()[0..4]), 64);
    assert_eq!(column.get(0).component(), FOO);
    assert_eq!(column.get(0).access(), Access::Read);
    assert!(storage.access_component(Access::Read, BAR).is_none());
    let mut chunks = storage.chunks();
    assert_eq!(chunks.next(), Some((0, 64)));
    assert_eq!(chunks.next(), Some((1, 6)));
    assert_eq!(chunks.next(), None);
    assert_eq!(storage.entity_at(65), 65);
}

#[test]
fn insert_spawns_each_bundle_in_order() {
    let mut world = World::new();
    let results = world.insert(vec![foo_bundle(1), bar_bundle(2), foo_bundle(3)]);
    assert_eq!(results.len(), 3);
    let es: Vec<_> = results.into_iter().map(|r| r.unwrap()).collect();
    assert_eq!(value(world.get_ref(es[0], FOO).unwrap().unwrap()), 1);
    assert_eq!(value(world.get_ref(es[1], BAR).unwrap().unwrap()), 2);
    assert_eq!(value(world.get_ref(es[2], FOO).unwrap().unwrap()), 3);
    assert_eq!(world.archetypes().len(), 2);
}

#[test]
fn query_rows_carry_entity_handles_for_write_back() {
    let mut world = scenario_b_world();
    let rows = world.query(&read(FOO));
    let mut handles = Vec::new();
    for archetype in rows {
        assert_eq!(archetype.entities.len(), archetype.rows.len());
        handles.extend(archetype.entities);
    }
    assert_eq!(handles.len(), 2);
    for e in &handles {
        assert_eq!(world.set_component(*e, FOO, &bytes(5)), Ok(true));
    }
    assert_eq!(values_of(&world, &read(FOO)), vec![5, 5]);
}

#[test]
fn decimal_settings_follow_str_parse() {
    assert_eq!(alex::archetype::chunk_lower_limit(Some("+768")), 768);
    assert_eq!(alex::archetype::chunk_lower_limit(Some("-768")), 512);
    assert_eq!(alex::archetype::chunk_lower_limit(Some("")), 512);
    assert_eq!(alex::archetype::chunk_lower_limit(Some("12a")), 512);
}
