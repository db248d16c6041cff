//! Swamp: the verified core of a local inference engine.
//!
//! The crate holds the decisions of the engine: cache paging, drafting,
//! scheduling, admission, clocks and wire formats.  Floating point numbers,
//! files, devices and threads stay with the program around it, which hands
//! integers and bytes in and takes integers, bytes and actions back.

pub mod aimd;
pub mod cache;
pub mod cache_zone;
pub mod compute_graph;
pub mod control_plane;
pub mod data_plane;
pub mod draft_file;
pub mod dspark;
pub mod execution_moe;
pub mod executor;
pub mod forward;
pub mod fugu;
pub mod governor;
pub mod gpu;
pub mod halves;
pub mod hlc;
pub mod hma;
pub mod hot_pages;
pub mod ieee;
pub mod kernels;
pub mod layout;
pub mod linear;
pub mod lru;
pub mod model;
pub mod model_registry;
pub mod model_swapper;
pub mod ops;
pub mod pattern_draft;
pub mod pipeline;
pub mod policy;
pub mod power_arbiter;
pub mod q4;
pub mod qat;
pub mod sampler;
pub mod scheduler;
pub mod server;
pub mod shaders;
pub mod staging;
pub mod step_ring;
pub mod swamp_vm;
pub mod text;
pub mod thermal;
pub mod tools;
pub mod virtual_experts;
pub mod vnpu;
pub mod zones;
