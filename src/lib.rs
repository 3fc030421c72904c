//! A sparse-set entity-component-system core: generational entities,
//! sparse-set component storages kept grouped, query range resolution,
//! and a dispatcher that merges non-conflicting systems into stages.
pub mod components;
pub mod dispatcher;
pub mod entity;
pub mod entity_storage;
pub mod group;
pub mod group_mask;
pub mod query;
pub mod registry;
pub mod resources;
pub mod sparse_array;
pub mod storage;
pub mod tick_map;
pub mod ticks;
pub mod utils;
pub mod world;
