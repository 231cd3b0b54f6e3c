use alex::access::{Access, ArchetypeAccess, ComponentAccess};
use alex::bundle::DynamicBundle;
use alex::component::{ComponentId, ComponentInfo, Layout};
use alex::schedule::{merge_access_types, sort_dedup_access_types, Dispatch, Schedule};
use alex::view::{read, Query, With};
use alex::world::World;
use alex::world_access::WorldAccess;

const FOO: ComponentId = ComponentId(1);
const BAR: ComponentId = ComponentId(2);

fn info(id: ComponentId, name: &'static str) -> ComponentInfo {
    ComponentInfo::new(id, Layout { size: 4, align: 4 }, name)
}

fn world_b() -> World {
    let mut world = World::new();
    world.spawn(DynamicBundle::new().with(info(FOO, "Foo"), vec![42, 0, 0, 0])).unwrap();
    world.spawn(DynamicBundle::new().with(info(BAR, "Bar"), vec![23, 0, 0, 0])).unwrap();
    world
        .spawn(
            DynamicBundle::new()
                .with(info(BAR, "Bar"), vec![3, 0, 0, 0])
                .with(info(FOO, "Foo"), vec![11, 0, 0, 0]),
        )
        .unwrap();
    world
}

fn ca(id: ComponentId, access: Access) -> ComponentAccess {
    ComponentAccess { component: id, access, offset: id.0 as usize * 100 }
}

#[test]
fn write_then_read_pipeline() {
    let world = world_b();
    let schedule = Schedule::new()
        .with_system(alex::view::write(FOO))
        .with_system(read(FOO))
        .with_system(read(BAR));
    let plan = schedule.plan(&world);
    assert_eq!(plan.nodes.len(), 3);
    assert!(plan.nodes[0].preds.is_empty());
    assert_eq!(plan.nodes[1].preds, vec![0]);
    assert!(plan.nodes[2].preds.is_empty());
    assert_eq!(plan.nodes[0].signals, vec![1]);
    assert_eq!(plan.nodes[1].waits, 2);
    assert_eq!(plan.nodes[2].waits, 1);
}

#[test]
fn conflict_chain_is_serialized() {
    let world = world_b();
    let mut schedule = Schedule::new();
    assert_eq!(schedule.add_system(alex::view::write(FOO)), 0);
    assert_eq!(schedule.add_system(alex::view::write(FOO)), 1);
    let plan = schedule.plan(&world);
    assert_eq!(plan.nodes[1].preds, vec![0]);
    assert_eq!(schedule.sequential_order(), vec![0, 1]);
}

#[test]
fn readers_share_and_writer_waits_for_all() {
    let world = world_b();
    let schedule = Schedule::new()
        .with_system(read(FOO))
        .with_system(read(FOO))
        .with_system(alex::view::write(FOO));
    let plan = schedule.plan(&world);
    assert!(plan.nodes[1].preds.is_empty());
    assert_eq!(plan.nodes[2].preds, vec![0, 1]);
}

#[test]
fn empty_schedule_and_empty_world() {
    let world = World::new();
    let schedule = Schedule::new().with_system(alex::view::write(FOO));
    let plan = schedule.plan(&world);
    assert_eq!(plan.nodes.len(), 1);
    assert!(plan.nodes[0].preds.is_empty());
    let none = Schedule::new().plan(&world_b());
    assert!(none.nodes.is_empty());
    assert_eq!(Schedule::new().len(), 0);
}

#[test]
fn pure_filters_do_not_conflict() {
    let world = world_b();
    let schedule = Schedule::new()
        .with_system(Query::With(With::new(FOO)))
        .with_system(alex::view::write(FOO));
    let plan = schedule.plan(&world);
    assert!(plan.nodes[1].preds.is_empty());
}

#[test]
fn normalization_sorts_and_elevates() {
    let list = vec![ca(BAR, Access::Read), ca(FOO, Access::Read), ca(FOO, Access::Write)];
    let n = sort_dedup_access_types(&list);
    assert_eq!(n, vec![ca(FOO, Access::Write), ca(BAR, Access::Read)]);
}

#[test]
fn merge_succeeds_only_for_reads() {
    let mut frontier = vec![ca(FOO, Access::Read)];
    assert!(merge_access_types(&mut frontier, &vec![ca(FOO, Access::Read), ca(BAR, Access::Write)]));
    assert_eq!(frontier, vec![ca(FOO, Access::Read), ca(BAR, Access::Write)]);
    assert!(!merge_access_types(&mut frontier, &vec![ca(BAR, Access::Read)]));
    assert_eq!(frontier, vec![ca(BAR, Access::Read)]);
}

#[test]
fn take_downgrades_and_moves_out() {
    let mut source = ArchetypeAccess::new(0, vec![ca(FOO, Access::Write), ca(BAR, Access::Read)]);
    let taken = source.take(&vec![ca(FOO, Access::Read), ca(BAR, Access::Write)]);
    assert_eq!(taken.grants(), &vec![ca(FOO, Access::Read)]);
    assert_eq!(source.grants(), &vec![ca(FOO, Access::Read), ca(BAR, Access::Read)]);
    let mut writer = ArchetypeAccess::new(3, vec![ca(FOO, Access::Write)]);
    let moved = writer.take(&vec![ca(FOO, Access::Write)]);
    assert_eq!(moved.grants(), &vec![ca(FOO, Access::Write)]);
    assert!(writer.grants().is_empty());
    assert_eq!(moved.archetype(), 3);
}

#[test]
fn component_grants_are_checked() {
    let mut access = ArchetypeAccess::new(0, vec![ca(FOO, Access::Write), ca(BAR, Access::Read)]);
    assert_eq!(access.borrow_write_component(FOO), Some(100));
    assert_eq!(access.borrow_write_component(BAR), None);
    assert_eq!(access.borrow_read_component(BAR), Some(200));
    assert_eq!(access.read_component(FOO), Some(100));
    assert_eq!(access.write_component(FOO), None);
    assert_eq!(access.write_component(BAR), None);
    let copy = access.reborrow();
    assert_eq!(copy.grants(), access.grants());
    let mut w = ArchetypeAccess::new(0, vec![ca(FOO, Access::Write)]);
    assert_eq!(w.write_component(FOO), Some(100));
    assert_eq!(w.write_component(FOO), None);
    assert_eq!(w.access_component(Access::Read, FOO), None);
}

#[test]
fn declared_access_of_queries() {
    let world = world_b();
    let both = &world.archetypes()[2];
    let q = Query::And(alex::view::And::new().and(read(BAR)).and(alex::view::write(FOO)));
    let list = q.access_types(both.archetype());
    assert_eq!(list.len(), 2);
    assert_eq!(list[0].component, BAR);
    assert_eq!(list[0].access, Access::Read);
    assert_eq!(list[1].access, Access::Write);
    assert_eq!(Some(list[1].offset), both.archetype().component_offset(FOO));
    let only_foo = &world.archetypes()[0];
    assert_eq!(q.access_types(only_foo.archetype()).len(), 1);
    assert!(!q.filter_archetype(only_foo.archetype()));
    let r = ComponentAccess::read(only_foo.archetype(), FOO).unwrap();
    assert_eq!(r.access, Access::Read);
    assert!(ComponentAccess::write(only_foo.archetype(), BAR).is_none());
}

#[test]
fn dispatch_starts_systems_after_their_predecessors() {
    let world = world_b();
    let schedule = Schedule::new()
        .with_system(alex::view::write(FOO))
        .with_system(read(FOO))
        .with_system(read(BAR));
    let plan = schedule.plan(&world);
    let mut d = Dispatch::new(&plan);
    assert!(!d.try_start(&plan, 1));
    assert!(d.try_start(&plan, 0));
    assert!(d.try_start(&plan, 2));
    assert!(!d.try_start(&plan, 0));
    assert!(!d.try_start(&plan, 1));
    d.complete(&plan, 0);
    assert!(d.try_start(&plan, 1));
    d.complete(&plan, 1);
    d.complete(&plan, 2);
}

#[test]
fn world_access_grants_what_the_system_declared() {
    let mut world = World::new();
    let e = world.spawn(DynamicBundle::new().with(info(FOO, "Foo"), vec![1, 0, 0, 0])).unwrap();
    let schedule = Schedule::new().with_system(alex::view::write(FOO)).with_system(read(BAR));
    let plan = schedule.plan(&world);
    let mut writer = WorldAccess::for_system(&plan, 0);
    assert_eq!(writer.granted_on(&world, e, FOO), Some(Access::Write));
    assert_eq!(writer.granted_on(&world, e, BAR), None);
    let reader = WorldAccess::for_system(&plan, 1);
    assert_eq!(reader.granted_on(&world, e, FOO), None);
    let copy = writer.reborrow();
    assert_eq!(copy.granted_on(&world, e, FOO), Some(Access::Write));
    let sub = writer.take(&world, &read(FOO));
    assert_eq!(sub.granted_on(&world, e, FOO), Some(Access::Read));
    assert_eq!(writer.granted_on(&world, e, FOO), Some(Access::Read));
    assert_eq!(sub.get_component(&world, e, FOO).unwrap().unwrap(), &[1, 0, 0, 0][..]);
    let mut w2 = WorldAccess::for_system(&plan, 0);
    let moved = w2.take(&world, &alex::view::write(FOO));
    assert_eq!(moved.set_component(&mut world, e, FOO, &vec![9, 0, 0, 0]), Ok(true));
    assert_eq!(w2.granted_on(&world, e, FOO), None);
    assert_eq!(world.get_ref(e, FOO).unwrap().unwrap(), &[9, 0, 0, 0][..]);
}

#[test]
fn writer_waits_for_every_earlier_reader() {
    let world = world_b();
    let schedule = Schedule::new()
        .with_system(alex::view::write(FOO))
        .with_system(read(BAR))
        .with_system(read(BAR))
        .with_system(read(FOO))
        .with_system(alex::view::write(BAR));
    let plan = schedule.plan(&world);
    assert_eq!(plan.nodes[3].preds, vec![0]);
    assert_eq!(plan.nodes[4].preds, vec![1, 2]);
    assert!(plan.nodes[1].preds.is_empty());
}
