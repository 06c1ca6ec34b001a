use hnz_ecs::application::{Application, Transition};
use hnz_ecs::basic::{Label, TryAddComponent, TryRemoveComponent};
use hnz_ecs::builder::{ApplicationBuilder, SystemType};
use hnz_ecs::fast_storage::FastStorage;
use hnz_ecs::storage::Storage;

const POSITION: u64 = 0;
const VELOCITY: u64 = 1;
const HEALTH: u64 = 2;

#[derive(Clone, Debug, PartialEq)]
enum Comp {
    Position { x: f32, y: f32 },
    Velocity { vx: f32, vy: f32 },
    Health(u32),
}

fn movement_app() -> Application<Comp, u32> {
    let mut builder = ApplicationBuilder::new();
    let id = builder.add_system(
        vec![POSITION, VELOCITY],
        vec![SystemType::JOIN, SystemType::QUIT, SystemType::TICK],
    );
    assert_eq!(id, 0);
    builder.build()
}

fn one_change(t: &[Transition]) -> (usize, u64, bool) {
    assert_eq!(t.len(), 1);
    (t[0].group, t[0].entity, t[0].joined)
}

#[test]
fn movement_scenario() {
    let mut app = movement_app();
    let e = app.spawn();
    assert_eq!(e, 0);
    assert!(!app.add_component(e, POSITION, Comp::Position { x: 0.0, y: 0.0 }));
    assert!(app.take_transitions().is_empty());
    assert!(!app.add_component(e, VELOCITY, Comp::Velocity { vx: 1.0, vy: 2.0 }));
    let joined = app.take_transitions();
    assert_eq!(one_change(&joined), (0, e, true));
    assert_eq!(app.join_systems_of(0), vec![0]);
    assert_eq!(app.view(0), &vec![e]);

    let delta: f32 = 1.0;
    for system in app.tick_schedule() {
        let g = app.group_of(system);
        let members = app.view(g).clone();
        for entity in members {
            let (vx, vy) = match app.try_get_component(entity, VELOCITY) {
                Some(Comp::Velocity { vx, vy }) => (*vx, *vy),
                _ => panic!("velocity missing"),
            };
            if let Some(Comp::Position { x, y }) = app.try_get_component_mut(entity, POSITION) {
                *x += vx * delta;
                *y += vy * delta;
            }
        }
    }
    assert_eq!(app.try_get_component(e, POSITION), Some(&Comp::Position { x: 1.0, y: 2.0 }));

    assert!(app.try_remove_component(e, VELOCITY));
    let quit = app.take_transitions();
    assert_eq!(one_change(&quit), (0, e, false));
    assert_eq!(app.quit_systems_of(0), vec![0]);
    assert!(app.view(0).is_empty());
}

#[test]
fn equal_requirements_share_one_group() {
    let mut builder = ApplicationBuilder::new();
    let a = builder.add_system(vec![POSITION, VELOCITY], vec![SystemType::TICK]);
    let b = builder.add_system(vec![VELOCITY, POSITION, VELOCITY], vec![SystemType::TICK]);
    let mut app: Application<Comp, u32> = builder.build();
    assert_eq!(app.group_count(), 1);
    assert_eq!(app.group_of(a), app.group_of(b));
    let e1 = app.spawn();
    let e2 = app.spawn();
    for e in [e1, e2] {
        app.add_component(e, POSITION, Comp::Position { x: 0.0, y: 0.0 });
        app.add_component(e, VELOCITY, Comp::Velocity { vx: 0.0, vy: 0.0 });
    }
    let schedule = app.tick_schedule();
    assert_eq!(schedule, vec![a, b]);
    let first = app.view(app.group_of(a)).clone();
    let second = app.view(app.group_of(b)).clone();
    assert_eq!(first, vec![e1, e2]);
    assert_eq!(first, second);
}

#[test]
fn try_add_twice_keeps_first_value() {
    let mut app = movement_app();
    let e = app.spawn();
    assert!(app.try_add_component(e, HEALTH, Comp::Health(3)));
    assert!(!app.try_add_component(e, HEALTH, Comp::Health(9)));
    assert_eq!(app.try_get_component(e, HEALTH), Some(&Comp::Health(3)));
    assert!(app.take_transitions().is_empty());
}

#[test]
fn add_then_remove_gives_value_back() {
    let mut app = movement_app();
    let e = app.spawn();
    app.add_component(e, HEALTH, Comp::Health(5));
    assert_eq!(app.try_remove_get_component(e, HEALTH), Some(Comp::Health(5)));
    assert_eq!(app.try_get_component(e, HEALTH), None);
    assert_eq!(app.try_remove_get_component(e, HEALTH), None);
    assert!(!app.try_remove_component(e, HEALTH));
}

#[test]
fn add_component_reports_replacement() {
    let mut app = movement_app();
    let e = app.spawn();
    assert!(!app.add_component(e, HEALTH, Comp::Health(1)));
    assert!(app.add_component(e, HEALTH, Comp::Health(2)));
    assert_eq!(app.try_get_component(e, HEALTH), Some(&Comp::Health(2)));
}

#[test]
fn unrelated_component_fires_nothing() {
    let mut app = movement_app();
    let e = app.spawn();
    app.add_component(e, POSITION, Comp::Position { x: 0.0, y: 0.0 });
    app.add_component(e, VELOCITY, Comp::Velocity { vx: 0.0, vy: 0.0 });
    app.take_transitions();
    app.add_component(e, HEALTH, Comp::Health(1));
    app.try_remove_component(e, HEALTH);
    assert!(app.take_transitions().is_empty());
    app.add_component(e, VELOCITY, Comp::Velocity { vx: 3.0, vy: 3.0 });
    assert!(app.take_transitions().is_empty());
    assert_eq!(app.view(0), &vec![e]);
}

#[test]
fn add_get_or_get_keeps_existing_value() {
    let mut app = movement_app();
    let e = app.spawn();
    {
        let v = app.add_get_or_get_component(e, HEALTH, Comp::Health(4));
        assert_eq!(*v, Comp::Health(4));
        *v = Comp::Health(6);
    }
    let v = app.add_get_or_get_component(e, HEALTH, Comp::Health(8));
    assert_eq!(*v, Comp::Health(6));
}

#[test]
fn events_drain_in_send_order_once() {
    let mut app = movement_app();
    app.send_event(7, 1);
    app.send_event(8, 2);
    app.send_event(7, 3);
    let first = app.drain_events();
    assert_eq!(first, vec![(7, 1), (8, 2), (7, 3)]);
    app.send_event(9, 4);
    let second = app.drain_events();
    assert_eq!(second, vec![(9, 4)]);
    assert!(app.drain_events().is_empty());
}

#[test]
fn event_subscribers_follow_registration() {
    let mut builder = ApplicationBuilder::new();
    let a = builder.add_system(vec![POSITION], vec![SystemType::EVENT(7), SystemType::TICK]);
    let b = builder.add_system(vec![VELOCITY], vec![SystemType::EVENT(7), SystemType::EVENT(7)]);
    let c = builder.add_system(vec![HEALTH], vec![SystemType::EVENT(8)]);
    let app: Application<Comp, u32> = builder.build();
    assert_eq!(app.event_systems_of(7), vec![a, b]);
    assert_eq!(app.event_systems_of(8), vec![c]);
    assert!(app.event_systems_of(9).is_empty());
    assert_eq!(app.tick_schedule(), vec![a]);
    assert_eq!(app.group_count(), 3);
}

#[test]
fn tick_schedule_orders_by_group_then_registration() {
    let mut builder = ApplicationBuilder::new();
    let ids = builder.add_systems(vec![vec![POSITION], vec![VELOCITY], vec![POSITION]], vec![SystemType::TICK]);
    assert_eq!(ids, vec![0, 1, 2]);
    let app: Application<Comp, u32> = builder.build();
    assert_eq!(app.group_count(), 2);
    assert_eq!(app.tick_schedule(), vec![0, 2, 1]);
}

#[test]
fn empty_requirement_admits_on_spawn() {
    let mut builder = ApplicationBuilder::new();
    builder.add_system(vec![], vec![SystemType::JOIN]);
    let mut app: Application<Comp, u32> = builder.build();
    let e = app.spawn();
    let t = app.take_transitions();
    assert_eq!(one_change(&t), (0, e, true));
    assert_eq!(app.view(0), &vec![e]);
}

#[test]
fn quit_on_each_required_component() {
    let mut app = movement_app();
    let e = app.spawn();
    app.add_component(e, POSITION, Comp::Position { x: 0.0, y: 0.0 });
    app.add_component(e, VELOCITY, Comp::Velocity { vx: 0.0, vy: 0.0 });
    app.take_transitions();
    assert_eq!(app.try_remove_get_component(e, POSITION), Some(Comp::Position { x: 0.0, y: 0.0 }));
    assert_eq!(one_change(&app.take_transitions()), (0, e, false));
    assert!(app.try_remove_component(e, VELOCITY));
    assert!(app.take_transitions().is_empty());
}

#[test]
fn getters_on_absent_values_are_empty() {
    let mut app = movement_app();
    let e = app.spawn();
    assert_eq!(app.try_get_component(e, POSITION), None);
    assert_eq!(app.try_get_component(99, POSITION), None);
    assert!(app.try_get_component_mut(e, POSITION).is_none());
}

#[test]
fn storage_add_get_remove() {
    let mut s: Storage<u32> = Storage::new();
    assert!(!s.add(1, 2, 10));
    assert!(s.add(1, 2, 11));
    assert!(s.has(1, 2));
    assert!(!s.has(2, 1));
    assert_eq!(s.get(1, 2), Some(&11));
    if let Some(v) = s.get_mut(1, 2) {
        *v = 12;
    }
    assert_eq!(s.remove(1, 2), Some(12));
    assert_eq!(s.remove(1, 2), None);
}

#[test]
fn fast_storage_collapses_equal_sets() {
    let groups = FastStorage::new(vec![vec![1, 2], vec![2, 1], vec![3]]);
    assert_eq!(groups.len(), 2);
    assert_eq!(groups.find_group(&vec![2, 1, 1]), Some(0));
    assert_eq!(groups.find_group(&vec![3]), Some(1));
    assert_eq!(groups.find_group(&vec![4]), None);
}

#[test]
fn basic_values() {
    let label = Label::new(String::from("player"));
    assert_eq!(label.text, "player");
    let remove = TryRemoveComponent { entity: 3, component_id: POSITION };
    assert_eq!((remove.entity, remove.component_id), (3, POSITION));
    let add = TryAddComponent { entity: 4, component_id: HEALTH, component: Comp::Health(2) };
    assert_eq!(add.component, Comp::Health(2));
}

#[test]
fn run_decides_stop_and_delta() {
    let app = movement_app();
    assert_eq!(app.run(1_000_000, 250_000, 100_000, false), Some(150_000));
    assert_eq!(app.run(1_000_000, 0, 0, false), Some(0));
    assert_eq!(app.run(1_000_000, 1_000_000, 900_000, false), None);
    assert_eq!(app.run(1_000_000, 10, 5, true), None);
    assert_eq!(app.run(1_000_000, 5, 10, false), Some(0));
}

#[test]
fn next_entity_counts_spawns() {
    let mut app = movement_app();
    assert_eq!(app.next_entity(), 0);
    let a = app.spawn();
    let b = app.spawn();
    assert_eq!((a, b), (0, 1));
    assert_eq!(app.next_entity(), 2);
}

#[test]
fn add_systems_registers_every_trigger() {
    let mut builder = ApplicationBuilder::new();
    let first = builder.add_system(vec![HEALTH], vec![SystemType::TICK]);
    let ids = builder.add_systems(
        vec![vec![POSITION], vec![VELOCITY]],
        vec![SystemType::JOIN, SystemType::TICK, SystemType::EVENT(5)],
    );
    assert_eq!(ids, vec![1, 2]);
    let app: Application<Comp, u32> = builder.build();
    assert_eq!(app.event_systems_of(5), vec![1, 2]);
    let g1 = app.group_of(1);
    let g2 = app.group_of(2);
    assert_eq!(app.join_systems_of(g1), vec![1]);
    assert_eq!(app.join_systems_of(g2), vec![2]);
    assert!(app.quit_systems_of(g1).is_empty());
    let mut schedule = app.tick_schedule();
    schedule.sort();
    assert_eq!(schedule, vec![first, 1, 2]);
}

#[test]
fn empty_builder_has_no_groups() {
    let app: Application<Comp, u32> = ApplicationBuilder::new().build();
    assert_eq!(app.group_count(), 0);
    assert!(app.tick_schedule().is_empty());
}

#[test]
fn spawned_entity_holds_nothing() {
    let mut app = movement_app();
    let e = app.spawn();
    for c in [POSITION, VELOCITY, HEALTH] {
        assert_eq!(app.try_get_component(e, c), None);
    }
}
