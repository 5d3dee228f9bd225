//! Lazy reactive signals: states, memoized computeds, effects and actions, propagated in
//! batches over a dependency graph of entities.
pub mod api;
pub mod entity_set;
pub mod framework;
pub mod laws;
pub mod lazy_immutable;
pub mod resource;
pub mod world;
