//! Common components: names, motion records and the markers the game uses.
//!
//! The motion records hold each coordinate as the bit pattern of an IEEE-754
//! double; the arithmetic on them is done by the game loop around the library.
use crate::world::{Component, ComponentKind, ComponentValue, GameState, StorageKind};
use vstd::prelude::*;

verus! {

/// Registers the common components.
pub fn init(w: &mut GameState)
    requires
        old(w).wf(),
    ensures
        final(w).wf(),
        final(w)@.registered(ComponentKind::Position),
        final(w)@.registered(ComponentKind::Velocity),
        final(w)@.registered(ComponentKind::Acceleration),
        final(w)@.registered(ComponentKind::Friction),
        final(w)@.registered(ComponentKind::Name),
        final(w)@.records == old(w)@.records,
        final(w)@.synced == old(w)@.synced,
        forall|k: ComponentKind|
            #![trigger old(w)@.registered(k)]
            #![trigger final(w)@.stores[k]]
            old(w)@.registered(k) ==> final(w)@.registered(k) && final(w)@.stores[k] == old(
                w,
            )@.stores[k],
        forall|k: ComponentKind|
            #![trigger final(w)@.registered(k)]
            #![trigger final(w)@.stores[k]]
            !old(w)@.registered(k) ==> final(w)@.registered(k) == (k == ComponentKind::Position || k == ComponentKind::Velocity || k == ComponentKind::Acceleration || k == ComponentKind::Friction || k == ComponentKind::Name)
                && (final(w)@.registered(k) ==> final(w)@.stores[k] == Map::<usize, ComponentValue>::empty()),
{
    w.register_component::<Position>();
    w.register_component::<Velocity>();
    w.register_component::<Acceleration>();
    w.register_component::<Friction>();
    w.register_component::<Name>();
}

/// A display name, also used to tag the buffs an item grants.
#[derive(Clone, Copy, Debug)]
pub struct Name(pub &'static str);

/// Where an entity stands; coordinates as `f64` bit patterns.
#[derive(Clone, Copy, PartialEq, Eq, Structural, Debug)]
pub struct Position {
    pub x_bits: u64,
    pub y_bits: u64,
}

/// How fast an entity moves; coordinates as `f64` bit patterns.
#[derive(Clone, Copy, PartialEq, Eq, Structural, Debug)]
pub struct Velocity {
    pub x_bits: u64,
    pub y_bits: u64,
}

/// How fast an entity's velocity changes; coordinates as `f64` bit patterns.
#[derive(Clone, Copy, PartialEq, Eq, Structural, Debug)]
pub struct Acceleration {
    pub x_bits: u64,
    pub y_bits: u64,
}

/// Per-axis factor that velocity is multiplied by each tick; as `f64` bit
/// patterns. An entity without one stops at the end of a tick.
#[derive(Clone, Copy, PartialEq, Eq, Structural, Debug)]
pub struct Friction {
    pub x_bits: u64,
    pub y_bits: u64,
}

/// Marks the entity the player controls.
#[derive(Clone, Copy, PartialEq, Eq, Structural, Debug)]
pub struct Player;

/// Marks an entity that chases the player.
#[derive(Clone, Copy, PartialEq, Eq, Structural, Debug)]
pub struct Enemy;

impl View for Name {
    type V = Name;

    open spec fn view(&self) -> Name {
        *self
    }
}

impl Component for Name {
    open spec fn kind() -> ComponentKind {
        ComponentKind::Name
    }

    fn kind_of() -> (k: ComponentKind) {
        ComponentKind::Name
    }

    fn storage_kind() -> StorageKind {
        StorageKind::Dense
    }

    open spec fn project(v: ComponentValue) -> Option<Self> {
        match v {
            ComponentValue::Name(c) => Some(c),
            _ => None,
        }
    }

    open spec fn into_value(self) -> ComponentValue {
        ComponentValue::Name(self)
    }

    fn wrap(self) -> (v: ComponentValue) {
        ComponentValue::Name(self)
    }

    fn peek(v: &ComponentValue) -> (r: Option<&Self>) {
        match v {
            ComponentValue::Name(c) => Some(c),
            _ => None,
        }
    }

    fn duplicate(&self) -> (r: Self) {
        *self
    }

    proof fn lemma_project_kind(v: ComponentValue) {
    }

    proof fn lemma_into_value(c: Self) {
    }
}

impl View for Position {
    type V = Position;

    open spec fn view(&self) -> Position {
        *self
    }
}

impl Component for Position {
    open spec fn kind() -> ComponentKind {
        ComponentKind::Position
    }

    fn kind_of() -> (k: ComponentKind) {
        ComponentKind::Position
    }

    fn storage_kind() -> StorageKind {
        StorageKind::Dense
    }

    open spec fn project(v: ComponentValue) -> Option<Self> {
        match v {
            ComponentValue::Position(c) => Some(c),
            _ => None,
        }
    }

    open spec fn into_value(self) -> ComponentValue {
        ComponentValue::Position(self)
    }

    fn wrap(self) -> (v: ComponentValue) {
        ComponentValue::Position(self)
    }

    fn peek(v: &ComponentValue) -> (r: Option<&Self>) {
        match v {
            ComponentValue::Position(c) => Some(c),
            _ => None,
        }
    }

    fn duplicate(&self) -> (r: Self) {
        *self
    }

    proof fn lemma_project_kind(v: ComponentValue) {
    }

    proof fn lemma_into_value(c: Self) {
    }
}

impl View for Velocity {
    type V = Velocity;

    open spec fn view(&self) -> Velocity {
        *self
    }
}

impl Component for Velocity {
    open spec fn kind() -> ComponentKind {
        ComponentKind::Velocity
    }

    fn kind_of() -> (k: ComponentKind) {
        ComponentKind::Velocity
    }

    fn storage_kind() -> StorageKind {
        StorageKind::Sparse
    }

    open spec fn project(v: ComponentValue) -> Option<Self> {
        match v {
            ComponentValue::Velocity(c) => Some(c),
            _ => None,
        }
    }

    open spec fn into_value(self) -> ComponentValue {
        ComponentValue::Velocity(self)
    }

    fn wrap(self) -> (v: ComponentValue) {
        ComponentValue::Velocity(self)
    }

    fn peek(v: &ComponentValue) -> (r: Option<&Self>) {
        match v {
            ComponentValue::Velocity(c) => Some(c),
            _ => None,
        }
    }

    fn duplicate(&self) -> (r: Self) {
        *self
    }

    proof fn lemma_project_kind(v: ComponentValue) {
    }

    proof fn lemma_into_value(c: Self) {
    }
}

impl View for Acceleration {
    type V = Acceleration;

    open spec fn view(&self) -> Acceleration {
        *self
    }
}

impl Component for Acceleration {
    open spec fn kind() -> ComponentKind {
        ComponentKind::Acceleration
    }

    fn kind_of() -> (k: ComponentKind) {
        ComponentKind::Acceleration
    }

    fn storage_kind() -> StorageKind {
        StorageKind::Sparse
    }

    open spec fn project(v: ComponentValue) -> Option<Self> {
        match v {
            ComponentValue::Acceleration(c) => Some(c),
            _ => None,
        }
    }

    open spec fn into_value(self) -> ComponentValue {
        ComponentValue::Acceleration(self)
    }

    fn wrap(self) -> (v: ComponentValue) {
        ComponentValue::Acceleration(self)
    }

    fn peek(v: &ComponentValue) -> (r: Option<&Self>) {
        match v {
            ComponentValue::Acceleration(c) => Some(c),
            _ => None,
        }
    }

    fn duplicate(&self) -> (r: Self) {
        *self
    }

    proof fn lemma_project_kind(v: ComponentValue) {
    }

    proof fn lemma_into_value(c: Self) {
    }
}

impl View for Friction {
    type V = Friction;

    open spec fn view(&self) -> Friction {
        *self
    }
}

impl Component for Friction {
    open spec fn kind() -> ComponentKind {
        ComponentKind::Friction
    }

    fn kind_of() -> (k: ComponentKind) {
        ComponentKind::Friction
    }

    fn storage_kind() -> StorageKind {
        StorageKind::Sparse
    }

    open spec fn project(v: ComponentValue) -> Option<Self> {
        match v {
            ComponentValue::Friction(c) => Some(c),
            _ => None,
        }
    }

    open spec fn into_value(self) -> ComponentValue {
        ComponentValue::Friction(self)
    }

    fn wrap(self) -> (v: ComponentValue) {
        ComponentValue::Friction(self)
    }

    fn peek(v: &ComponentValue) -> (r: Option<&Self>) {
        match v {
            ComponentValue::Friction(c) => Some(c),
            _ => None,
        }
    }

    fn duplicate(&self) -> (r: Self) {
        *self
    }

    proof fn lemma_project_kind(v: ComponentValue) {
    }

    proof fn lemma_into_value(c: Self) {
    }
}

impl View for Player {
    type V = Player;

    open spec fn view(&self) -> Player {
        *self
    }
}

impl Component for Player {
    open spec fn kind() -> ComponentKind {
        ComponentKind::Player
    }

    fn kind_of() -> (k: ComponentKind) {
        ComponentKind::Player
    }

    fn storage_kind() -> StorageKind {
        StorageKind::Sorted
    }

    open spec fn project(v: ComponentValue) -> Option<Self> {
        match v {
            ComponentValue::Player(c) => Some(c),
            _ => None,
        }
    }

    open spec fn into_value(self) -> ComponentValue {
        ComponentValue::Player(self)
    }

    fn wrap(self) -> (v: ComponentValue) {
        ComponentValue::Player(self)
    }

    fn peek(v: &ComponentValue) -> (r: Option<&Self>) {
        match v {
            ComponentValue::Player(c) => Some(c),
            _ => None,
        }
    }

    fn duplicate(&self) -> (r: Self) {
        *self
    }

    proof fn lemma_project_kind(v: ComponentValue) {
    }

    proof fn lemma_into_value(c: Self) {
    }
}

impl View for Enemy {
    type V = Enemy;

    open spec fn view(&self) -> Enemy {
        *self
    }
}

impl Component for Enemy {
    open spec fn kind() -> ComponentKind {
        ComponentKind::Enemy
    }

    fn kind_of() -> (k: ComponentKind) {
        ComponentKind::Enemy
    }

    fn storage_kind() -> StorageKind {
        StorageKind::Sorted
    }

    open spec fn project(v: ComponentValue) -> Option<Self> {
        match v {
            ComponentValue::Enemy(c) => Some(c),
            _ => None,
        }
    }

    open spec fn into_value(self) -> ComponentValue {
        ComponentValue::Enemy(self)
    }

    fn wrap(self) -> (v: ComponentValue) {
        ComponentValue::Enemy(self)
    }

    fn peek(v: &ComponentValue) -> (r: Option<&Self>) {
        match v {
            ComponentValue::Enemy(c) => Some(c),
            _ => None,
        }
    }

    fn duplicate(&self) -> (r: Self) {
        *self
    }

    proof fn lemma_project_kind(v: ComponentValue) {
    }

    proof fn lemma_into_value(c: Self) {
    }
}

} // verus!
