//! Verified core of the proto_ecs entity-component-system.

pub mod free_queue;
pub mod handle;
pub mod entity_allocator;
pub mod sorting;
pub mod common;
pub mod data_group;
pub mod data_group2;
pub mod data_groups2;
pub mod utils;
pub mod ids;
pub mod events;
pub mod keys;
pub mod platform;
pub mod window;
pub mod rendering;
pub mod time;
pub mod het_single_mem_block;
pub mod local_systems;
pub mod toposort;
pub mod entity_spawn_desc;
pub mod laws;
pub mod stage_tables;
pub mod entity;
pub mod entity_description;
pub mod hierarchy;
pub mod world;
pub mod global_system_stages;
pub mod layer;
pub mod macro_args;
