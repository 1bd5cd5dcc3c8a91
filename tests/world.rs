use world::common::{Acceleration, Enemy, Friction, Name, Player, Position, Velocity};
use world::inventory::{ActiveEffect, Consumable, Inventory, Stackable};
use world::stats::{self, Health};
use world::world::{ComponentKind, Deleted};
use world::{GameState, SystemRunner};

fn prepared() -> GameState {
    let mut w = GameState::new();
    world::common::init(&mut w);
    stats::init(&mut w);
    world::inventory::init(&mut w);
    w
}

#[test]
fn new_state_has_no_entities() {
    let w = GameState::new();
    let seen = w.read_all(|e, _: &Deleted| e.id());
    assert!(seen.is_empty());
}

#[test]
fn entities_get_sequential_indices() {
    let mut w = prepared();
    let a = w.create_entity();
    let b = w.create_entity();
    let c = w.create_entity();
    assert_eq!((a.id(), b.id(), c.id()), (0, 1, 2));
    assert!(w.is_alive(b));
    assert!(!w.is_deleted(b));
}

#[test]
fn flag_matches_clone_while_alive() {
    let mut w = prepared();
    let e = w.create_entity();
    assert!(!w.has_flag::<Health>(e));
    assert!(w.clone::<Health>(e).is_none());
    w.insert(e, Health(7));
    assert!(w.has_flag::<Health>(e));
    assert!(w.clone::<Health>(e).is_some());
    w.delete::<Health>(e);
    assert!(!w.has_flag::<Health>(e));
    assert!(w.clone::<Health>(e).is_none());
}

#[test]
fn insert_then_clone_round_trips() {
    let mut w = prepared();
    let e = w.create_entity();
    w.insert(e, Health(12));
    assert_eq!(w.clone::<Health>(e), Some(Health(12)));
    w.insert(e, Health(-4));
    assert_eq!(w.clone::<Health>(e), Some(Health(-4)));
    w.insert(e, Name("kay"));
    assert_eq!(w.clone::<Name>(e).map(|n| n.0), Some("kay"));
}

#[test]
fn deleting_twice_is_deleting_once() {
    let mut w = prepared();
    let e = w.create_entity();
    w.insert(e, Health(3));
    w.insert(e, Name("n"));
    w.delete::<Health>(e);
    let once = (w.clone::<Health>(e), w.type_of(e), w.clone::<Name>(e).map(|n| n.0));
    w.delete::<Health>(e);
    let twice = (w.clone::<Health>(e), w.type_of(e), w.clone::<Name>(e).map(|n| n.0));
    assert_eq!(once, twice);
    assert_eq!(twice.0, None);
}

#[test]
fn signature_tracks_inserts_and_deletes() {
    let mut w = prepared();
    let e = w.create_entity();
    assert_eq!(w.type_of(e), 0);
    w.insert(e, Health(1));
    let with_health = w.type_of(e);
    assert_ne!(with_health, 0);
    w.insert(e, Health(2));
    assert_eq!(w.type_of(e), with_health);
    w.insert(e, Name("x"));
    let both = w.type_of(e);
    assert_ne!(both, with_health);
    assert_eq!(both & with_health, with_health);
    w.delete::<Name>(e);
    assert_eq!(w.type_of(e), with_health);
    w.delete::<Health>(e);
    assert_eq!(w.type_of(e), 0);
}

#[test]
fn registering_twice_keeps_data() {
    let mut w = prepared();
    let e = w.create_entity();
    w.insert(e, Health(9));
    let before = w.type_of(e);
    stats::init(&mut w);
    assert_eq!(w.clone::<Health>(e), Some(Health(9)));
    w.delete::<Health>(e);
    w.insert(e, Health(9));
    assert_eq!(w.type_of(e), before);
}

#[test]
fn soft_deleted_entity_is_skipped_by_scans() {
    let mut w = prepared();
    let a = w.create_entity();
    let b = w.create_entity();
    w.insert(a, Health(10));
    w.insert(b, Health(20));
    w.update_entities();
    w.delete_entity(a);
    assert!(!w.is_alive(a));
    assert!(w.is_deleted(a));
    assert!(!w.has_flag::<Health>(a));
    assert_eq!(w.clone::<Health>(a), None);
    // the data stays reachable by keyed access
    assert_eq!(w.get_value::<Health>(a), Health(10));
    w.update_all(|_, h: &Health| Health(h.0 + 1));
    assert_eq!(w.get_value::<Health>(a), Health(10));
    assert_eq!(w.get_value::<Health>(b), Health(21));
    let seen = w.read_all(|e, h: &Health| (e.id(), h.0));
    assert_eq!(seen, vec![(1, 21)]);
    w.run(|(h,): (&Health,)| (Health(h.0 * 2),));
    assert_eq!(w.get_value::<Health>(a), Health(10));
    assert_eq!(w.get_value::<Health>(b), Health(42));
}

#[test]
fn update_and_read_touch_one_entity() {
    let mut w = prepared();
    let a = w.create_entity();
    let b = w.create_entity();
    w.insert(a, Health(1));
    w.insert(b, Health(2));
    w.update(a, |h: &Health| Health(h.0 + 100));
    assert_eq!(w.clone::<Health>(a), Some(Health(101)));
    assert_eq!(w.clone::<Health>(b), Some(Health(2)));
    assert_eq!(w.read(b, |h: &Health| h.0 * 10), Some(20));
    let c = w.create_entity();
    assert_eq!(w.read(c, |h: &Health| h.0), None);
    w.update(c, |h: &Health| Health(h.0 + 1));
    assert_eq!(w.clone::<Health>(c), None);
    w.delete_entity(b);
    w.update(b, |h: &Health| Health(h.0 + 1));
    assert_eq!(w.get_value::<Health>(b), Health(2));
    assert_eq!(w.read(b, |h: &Health| h.0), None);
}

fn pos(x: f64, y: f64) -> Position {
    Position { x_bits: x.to_bits(), y_bits: y.to_bits() }
}

fn vel(x: f64, y: f64) -> Velocity {
    Velocity { x_bits: x.to_bits(), y_bits: y.to_bits() }
}

#[test]
fn query_visits_only_entities_holding_every_type() {
    let mut w = prepared();
    let both = w.create_entity();
    let only_pos = w.create_entity();
    let only_vel = w.create_entity();
    w.insert(both, pos(1.0, 1.0));
    w.insert(both, vel(2.0, 3.0));
    w.insert(only_pos, pos(5.0, 5.0));
    w.insert(only_vel, vel(7.0, 7.0));
    w.update_entities();
    w.run(|(p, v): (&Position, &Velocity)| {
        let x = f64::from_bits(p.x_bits) + f64::from_bits(v.x_bits);
        let y = f64::from_bits(p.y_bits) + f64::from_bits(v.y_bits);
        (pos(x, y), *v)
    });
    assert_eq!(w.get_value::<Position>(both), pos(3.0, 4.0));
    assert_eq!(w.get_value::<Velocity>(both), vel(2.0, 3.0));
    assert_eq!(w.get_value::<Position>(only_pos), pos(5.0, 5.0));
    assert_eq!(w.get_value::<Velocity>(only_vel), vel(7.0, 7.0));
}

#[test]
fn three_type_query_needs_all_three() {
    let mut w = prepared();
    w.register_component::<Player>();
    w.register_component::<Enemy>();
    let p = w.create_entity();
    let e = w.create_entity();
    w.insert(p, Player);
    w.insert(p, pos(0.0, 0.0));
    w.insert(p, vel(1.0, 1.0));
    w.insert(e, Enemy);
    w.insert(e, pos(0.0, 0.0));
    w.insert(e, vel(1.0, 1.0));
    w.update_entities();
    w.run(|(pl, p, v): (&Player, &Position, &Velocity)| (*pl, *p, vel(-f64::from_bits(v.x_bits), 0.0)));
    assert_eq!(w.get_value::<Velocity>(p), vel(-1.0, 0.0));
    assert_eq!(w.get_value::<Velocity>(e), vel(1.0, 1.0));
}

#[test]
fn scans_see_created_entities_after_sync_only() {
    let mut w = prepared();
    let mut made = Vec::new();
    for i in 0..5 {
        let e = w.create_entity();
        w.insert(e, Health(i));
        made.push(e);
    }
    assert!(w.read_all(|e, _: &Health| e.id()).is_empty());
    w.update_all(|_, h: &Health| Health(h.0 + 10));
    assert_eq!(w.get_value::<Health>(made[0]), Health(0));
    w.update_entities();
    assert_eq!(w.read_all(|e, _: &Health| e.id()), vec![0, 1, 2, 3, 4]);
    w.update_all(|_, h: &Health| Health(h.0 + 10));
    assert_eq!(w.read_all(|_, h: &Health| h.0), vec![10, 11, 12, 13, 14]);
}

#[test]
fn kinds_have_distinct_slots() {
    assert_eq!(ComponentKind::Deleted.slot(), 0);
    assert_eq!(ComponentKind::Enemy.slot(), 13);
    assert_ne!(ComponentKind::Name.slot(), ComponentKind::Health.slot());
}

#[test]
fn resources_are_singletons_apart_from_entities() {
    let mut w = prepared();
    assert_eq!(w.get_resource::<Health>(), None);
    w.set_resource(Health(100));
    assert_eq!(w.get_resource::<Health>(), Some(Health(100)));
    w.set_resource(Health(50));
    assert_eq!(w.get_resource::<Health>(), Some(Health(50)));
    let e = w.create_entity();
    assert!(!w.has_flag::<Health>(e));
    w.insert(e, Health(1));
    assert_eq!(w.get_resource::<Health>(), Some(Health(50)));
    assert!(w.get_resource::<Name>().is_none());
}

#[test]
fn every_kind_gets_its_own_signature_bit() {
    let mut w = prepared();
    w.register_component::<Player>();
    w.register_component::<Enemy>();
    let e = w.create_entity();
    w.insert(e, Name("all"));
    w.insert(e, Health(1));
    w.insert(e, Inventory::new());
    w.insert(e, Consumable::new(vec![]));
    w.insert(e, ActiveEffect::new(vec![]));
    w.insert(e, Stackable::new(1));
    w.insert(e, pos(0.0, 0.0));
    w.insert(e, vel(0.0, 0.0));
    w.insert(e, Acceleration { x_bits: 0, y_bits: 0 });
    w.insert(e, Friction { x_bits: 0, y_bits: 0 });
    w.insert(e, Player);
    w.insert(e, Enemy);
    assert_eq!(w.type_of(e).count_ones(), 12);
    stats::set_base(&mut w, e, stats::VITALITY, 1);
    assert_eq!(w.type_of(e).count_ones(), 13);
    w.delete_entity(e);
    assert_eq!(w.type_of(e).count_ones(), 14);
    assert!(w.type_of(e) > 0);
}

fn acc(x: f64, y: f64) -> Acceleration {
    Acceleration { x_bits: x.to_bits(), y_bits: y.to_bits() }
}

fn fric(x: f64, y: f64) -> Friction {
    Friction { x_bits: x.to_bits(), y_bits: y.to_bits() }
}

#[test]
fn four_type_query_needs_all_four() {
    let mut w = prepared();
    let full = w.create_entity();
    let partial = w.create_entity();
    for e in [full, partial] {
        w.insert(e, pos(0.0, 0.0));
        w.insert(e, vel(1.0, 1.0));
        w.insert(e, acc(2.0, 0.0));
    }
    w.insert(full, fric(0.5, 0.5));
    w.update_entities();
    w.run(|(p, v, a, f): (&Position, &Velocity, &Acceleration, &Friction)| {
        let vx = (f64::from_bits(v.x_bits) + f64::from_bits(a.x_bits)) * f64::from_bits(f.x_bits);
        let vy = (f64::from_bits(v.y_bits) + f64::from_bits(a.y_bits)) * f64::from_bits(f.y_bits);
        let px = f64::from_bits(p.x_bits) + vx;
        let py = f64::from_bits(p.y_bits) + vy;
        (pos(px, py), vel(vx, vy), *a, *f)
    });
    assert_eq!(w.get_value::<Velocity>(full), vel(1.5, 0.5));
    assert_eq!(w.get_value::<Position>(full), pos(1.5, 0.5));
    assert_eq!(w.get_value::<Velocity>(partial), vel(1.0, 1.0));
    assert_eq!(w.get_value::<Position>(partial), pos(0.0, 0.0));
}

#[test]
fn eight_type_query_needs_all_eight() {
    let mut w = prepared();
    w.register_component::<Player>();
    w.register_component::<Enemy>();
    let full = w.create_entity();
    let partial = w.create_entity();
    for e in [full, partial] {
        w.insert(e, Name("n"));
        w.insert(e, Health(10));
        w.insert(e, pos(0.0, 0.0));
        w.insert(e, vel(0.0, 0.0));
        w.insert(e, acc(0.0, 0.0));
        w.insert(e, fric(1.0, 1.0));
        w.insert(e, Player);
    }
    w.insert(full, Enemy);
    w.update_entities();
    w.run(
        |(n, h, p, v, a, f, pl, en): (
            &Name,
            &Health,
            &Position,
            &Velocity,
            &Acceleration,
            &Friction,
            &Player,
            &Enemy,
        )| (*n, Health(h.0 + 5), *p, *v, *a, *f, *pl, *en),
    );
    assert_eq!(w.get_value::<Health>(full), Health(15));
    assert_eq!(w.get_value::<Health>(partial), Health(10));
}

#[test]
fn bits_follow_registration_order() {
    let mut w = GameState::new();
    w.register_component::<Health>();
    w.register_component::<Name>();
    let e = w.create_entity();
    w.insert(e, Health(1));
    assert_eq!(w.type_of(e), 2);
    w.insert(e, Name("n"));
    assert_eq!(w.type_of(e), 6);
    w.delete_entity(e);
    assert_eq!(w.type_of(e), 7);
}
