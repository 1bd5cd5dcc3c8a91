//! A small entity-component-system runtime, with the gameplay components
//! (stats, inventory, common records) that run on it.
pub mod common;
pub mod inventory;
pub mod stats;
pub mod storage;
pub mod world;

pub use self::storage::ComponentStorage;
pub use self::world::Component;
pub use self::world::Entity;
pub use self::world::GameState;
pub use self::world::SystemRunner;
