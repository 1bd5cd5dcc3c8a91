use world::stats::{
    buff, get, get_base, get_max, init, modify, set_base, unbuff, DEXTERITY, STRENGTH, VITALITY, WISDOM,
};
use world::GameState;

fn prepare_world() -> GameState {
    let mut w = GameState::new();
    init(&mut w);
    w
}

#[test]
fn base_stats() {
    let mut w = prepare_world();
    let stats_test_entity = w.create_entity();
    set_base(&mut w, stats_test_entity, VITALITY, 32);
    assert_eq!(get_base(&w, stats_test_entity, VITALITY), 32);
    w.delete_entity(stats_test_entity);
}

#[test]
fn modify_value() {
    let mut w = prepare_world();
    let stats_test_entity = w.create_entity();
    set_base(&mut w, stats_test_entity, VITALITY, 32);
    assert_eq!(get_base(&w, stats_test_entity, VITALITY), 32);
    modify(&mut w, stats_test_entity, VITALITY, -3);
    // health went down while vitality stayed
    assert_eq!(get(&w, stats_test_entity, VITALITY), 29);
    assert_eq!(get_base(&w, stats_test_entity, VITALITY), 32);
    w.delete_entity(stats_test_entity);
}

#[test]
fn buff_base() {
    let mut w = prepare_world();
    let stats_test_entity = w.create_entity();
    set_base(&mut w, stats_test_entity, VITALITY, 32);
    buff(&mut w, stats_test_entity, VITALITY, "health buff 1", -5);
    assert_eq!(get_base(&w, stats_test_entity, VITALITY), 32);
    assert_eq!(get_max(&w, stats_test_entity, VITALITY), 27);
    assert_eq!(get(&w, stats_test_entity, VITALITY), 27);
    w.delete_entity(stats_test_entity);
}

#[test]
fn buff_vitality() {
    let mut w = prepare_world();
    let stats_test_entity = w.create_entity();
    set_base(&mut w, stats_test_entity, VITALITY, 32);
    buff(&mut w, stats_test_entity, VITALITY, "health buff 1", -5);
    // after a debuff is lifted, health stays lowered
    unbuff(&mut w, stats_test_entity, "health buff 1");
    assert_eq!(get(&w, stats_test_entity, VITALITY), 27);
    w.delete_entity(stats_test_entity);
}

#[test]
fn stat_regression_scenario() {
    let mut w = prepare_world();
    let e = w.create_entity();
    set_base(&mut w, e, VITALITY, 32);
    assert_eq!(get_base(&w, e, VITALITY), 32);
    assert_eq!(get_max(&w, e, VITALITY), 32);
    modify(&mut w, e, VITALITY, -3);
    assert_eq!(get(&w, e, VITALITY), 29);
    assert_eq!(get_base(&w, e, VITALITY), 32);
    buff(&mut w, e, VITALITY, "debuff", -5);
    assert_eq!(get_max(&w, e, VITALITY), 27);
    unbuff(&mut w, e, "debuff");
    assert_eq!(get_max(&w, e, VITALITY), 32);
    assert_eq!(get(&w, e, VITALITY), 27);
}

#[test]
fn stats_default_to_zero() {
    let mut w = prepare_world();
    let e = w.create_entity();
    assert_eq!(get_base(&w, e, STRENGTH), 0);
    assert_eq!(get_max(&w, e, STRENGTH), 0);
    assert_eq!(get(&w, e, VITALITY), 0);
    set_base(&mut w, e, VITALITY, 10);
    assert_eq!(get_base(&w, e, STRENGTH), 0);
    assert_eq!(get(&w, e, STRENGTH), 0);
}

#[test]
fn other_stats_use_their_maximum() {
    let mut w = prepare_world();
    let e = w.create_entity();
    set_base(&mut w, e, STRENGTH, 5);
    buff(&mut w, e, STRENGTH, "sword", 3);
    buff(&mut w, e, STRENGTH, "ring", 2);
    assert_eq!(get_base(&w, e, STRENGTH), 5);
    assert_eq!(get_max(&w, e, STRENGTH), 10);
    assert_eq!(get(&w, e, STRENGTH), 10);
    buff(&mut w, e, STRENGTH, "sword", 1);
    assert_eq!(get_max(&w, e, STRENGTH), 8);
    world::stats::set(&mut w, e, STRENGTH, 7);
    assert_eq!(get_base(&w, e, STRENGTH), 7);
    modify(&mut w, e, STRENGTH, -2);
    assert_eq!(get_base(&w, e, STRENGTH), 5);
    unbuff(&mut w, e, "sword");
    assert_eq!(get_max(&w, e, STRENGTH), 7);
}

#[test]
fn set_base_overwrites_base_value() {
    let mut w = prepare_world();
    let e = w.create_entity();
    set_base(&mut w, e, WISDOM, 4);
    set_base(&mut w, e, WISDOM, 9);
    assert_eq!(get_base(&w, e, WISDOM), 9);
    assert_eq!(get_max(&w, e, WISDOM), 9);
}

#[test]
fn vitality_set_changes_health_only() {
    let mut w = prepare_world();
    let e = w.create_entity();
    set_base(&mut w, e, VITALITY, 20);
    world::stats::set(&mut w, e, VITALITY, 5);
    assert_eq!(get(&w, e, VITALITY), 5);
    assert_eq!(get_base(&w, e, VITALITY), 20);
    buff(&mut w, e, VITALITY, "blessing", 4);
    assert_eq!(get_max(&w, e, VITALITY), 24);
    assert_eq!(get(&w, e, VITALITY), 5);
}

#[test]
fn dead_entity_has_no_stats() {
    let mut w = prepare_world();
    let e = w.create_entity();
    set_base(&mut w, e, DEXTERITY, 6);
    w.delete_entity(e);
    assert_eq!(get_base(&w, e, DEXTERITY), 0);
    assert_eq!(get_max(&w, e, DEXTERITY), 0);
}

#[test]
fn unbuff_removes_only_the_named_buff() {
    let mut w = prepare_world();
    let e = w.create_entity();
    set_base(&mut w, e, STRENGTH, 10);
    buff(&mut w, e, STRENGTH, "ring", 4);
    buff(&mut w, e, STRENGTH, "helm", 2);
    buff(&mut w, e, WISDOM, "ring", 1);
    assert_eq!(get_max(&w, e, STRENGTH), 16);
    unbuff(&mut w, e, "ring");
    assert_eq!(get_max(&w, e, STRENGTH), 12);
    assert_eq!(get_base(&w, e, STRENGTH), 10);
    assert_eq!(get_max(&w, e, WISDOM), 0);
}
