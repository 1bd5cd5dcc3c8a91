use world::common::{Name, Position};
use world::inventory::{add_item, consume, remove_item, ActiveEffect, Consumable, Inventory, Stackable};
use world::stats::{self, VITALITY};
use world::GameState;

fn prepared() -> GameState {
    let mut w = GameState::new();
    world::common::init(&mut w);
    stats::init(&mut w);
    world::inventory::init(&mut w);
    w
}

fn at(x: f64, y: f64) -> Position {
    Position { x_bits: x.to_bits(), y_bits: y.to_bits() }
}

#[test]
fn active_effect_applies_while_held_and_consuming_swaps_it() {
    let mut w = prepared();
    let p = w.create_entity();
    w.insert(p, at(0.0, 0.0));
    w.insert(p, Name("kay"));
    stats::set_base(&mut w, p, VITALITY, 32);
    w.insert(p, Inventory::new());
    let e = w.create_entity();
    w.insert(e, Name("Inventory Test Entity"));
    w.insert(e, at(200.0, 300.0));
    w.insert(e, Consumable::new(vec![(VITALITY, 3)]));
    w.insert(e, ActiveEffect::new(vec![(VITALITY, -3)]));
    add_item(&mut w, p, e);
    assert_eq!(w.get_value::<Inventory>(p).items, vec![e]);
    assert!(!w.has_flag::<Position>(e));
    assert_eq!(stats::get_max(&w, p, VITALITY), 29);
    consume(&mut w, p, e);
    assert!(w.get_value::<Inventory>(p).items.is_empty());
    assert_eq!(stats::get_max(&w, p, VITALITY), 35);
    assert!(!w.is_alive(e));
}

#[test]
fn removing_an_item_drops_it_at_the_holder() {
    let mut w = prepared();
    let p = w.create_entity();
    w.insert(p, at(4.0, 5.0));
    stats::set_base(&mut w, p, VITALITY, 10);
    w.insert(p, Inventory::new());
    let a = w.create_entity();
    let b = w.create_entity();
    w.insert(a, Name("amulet"));
    w.insert(a, ActiveEffect::new(vec![(VITALITY, 2)]));
    w.insert(b, Name("bone"));
    add_item(&mut w, p, a);
    add_item(&mut w, p, b);
    assert_eq!(w.get_value::<Inventory>(p).items, vec![a, b]);
    assert_eq!(stats::get_max(&w, p, VITALITY), 12);
    remove_item(&mut w, p, a);
    assert_eq!(w.get_value::<Inventory>(p).items, vec![b]);
    assert_eq!(stats::get_max(&w, p, VITALITY), 10);
    assert_eq!(w.clone::<Position>(a), Some(at(4.0, 5.0)));
}

#[test]
fn stackable_items_join_a_stack() {
    let mut w = prepared();
    let p = w.create_entity();
    w.insert(p, Inventory::new());
    let first = w.create_entity();
    let second = w.create_entity();
    for item in [first, second] {
        w.insert(item, Name("potion"));
        w.insert(item, Stackable::new(1));
        w.insert(item, at(1.0, 1.0));
    }
    add_item(&mut w, p, first);
    add_item(&mut w, p, second);
    assert_eq!(w.get_value::<Inventory>(p).items, vec![first]);
    assert_eq!(w.get_value::<Stackable>(first).count(), 2);
    assert_eq!(w.get_value::<Stackable>(second).count(), 1);
    remove_item(&mut w, p, first);
    assert_eq!(w.get_value::<Inventory>(p).items, vec![first]);
    assert_eq!(w.get_value::<Stackable>(first).count(), 1);
}

#[test]
fn no_inventory_means_no_change() {
    let mut w = prepared();
    let p = w.create_entity();
    let item = w.create_entity();
    w.insert(item, at(2.0, 2.0));
    add_item(&mut w, p, item);
    assert!(w.has_flag::<Position>(item));
    assert!(w.clone::<Inventory>(p).is_none());
    remove_item(&mut w, p, item);
    consume(&mut w, p, item);
    assert!(w.is_alive(item));
}
