//! An entity-component-system runtime.
//!
//! Entities are composed from component values that live in per-type
//! [`Bank`]s. Each entity carries an [`Aspect`], the set of component ids it
//! currently holds, and a [`System`] follows the entities whose aspect covers
//! the aspect it requires. A [`World`] ties the parts together: it keeps the
//! banks and the entity records in its [`Store`], tells the systems when an
//! entity's aspect changes, and advances the simulation one tick at a time.
//!
//! Every function states in its contract what it returns and changes, and is
//! proved to do so. Functions with a `requires` clause must be called as the
//! clause says: they do not check it at run time.
pub mod aspect;
pub mod bank;
mod bits;
pub mod entity;
pub mod store;
pub mod system;
pub mod world;

pub use aspect::Aspect;
pub use bank::Bank;
pub use bank::BankView;
pub use entity::Entity;
pub use entity::EntityView;
pub use entity::UNSET;
pub use store::Store;
pub use system::AspectSystem;
pub use system::AspectSystemState;
pub use system::System;
pub use world::World;
