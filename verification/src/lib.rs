//! Batch planning, pipeline admission and identity rules of the staged
//! llama.cpp adapter, with their contracts proved by Verus.
pub mod scheduler;
pub mod rows;
pub mod plan_ordinary;
pub mod plan_equal;
pub mod plan_atomic;
pub mod pipeline;
pub mod text;
pub mod session_key;
pub mod service;
pub mod resource_profile;
pub mod proposal;
pub mod plan_laws;
pub mod request;
pub mod simulator;
pub mod service_laws;
pub mod capacity;
pub mod workload;
pub mod service_shape;
pub mod plan_determinism;
pub mod plan_rotation;
