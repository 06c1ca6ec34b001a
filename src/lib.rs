//! An entity-component-system core: typed component storage keyed by
//! entity and component type, requirement groups whose memberships are
//! kept up to date incrementally, and a dispatch plan for the systems
//! registered against join, quit, tick and event triggers.

pub mod entity;
pub mod storage;
pub mod fast_storage;
pub mod subscriptions;
pub mod application;
pub mod builder;
pub mod basic;
