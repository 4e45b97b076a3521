//! Verified core of a Metal GPU backend for a circle STARK prover.
//!
//! The crate decides everything that can be decided on plain values: the bytecode
//! that a constraint evaluation kernel interprets, the schedule of transform layers,
//! the contents of the buffers that are handed to a kernel, the geometry of each
//! launch, and what is done with the numbers that come back.  Talking to a device is
//! left to the caller, who runs a [`kernel::Plan`].

pub mod accumulation;
pub mod backend;
pub mod blake2s_hash;
pub mod buffer_pool;
pub mod byte_order;
pub mod butterflies;
pub mod bytecode;
pub mod bytecode_generator;
pub mod channel;
pub mod columns;
pub mod component_prover;
pub mod constraint_eval_gpu;
pub mod device_memory;
pub mod fft_schedule;
pub mod fields;
pub mod fri;
pub mod grind;
pub mod kernel;
pub mod merkle;
pub mod packing;
pub mod planned_transform;
pub mod point_evaluation;
pub mod poly;
pub mod profiling;
pub mod quotient_memory;
pub mod quotients;
pub mod thresholds;
pub mod transform_memory;
pub mod twiddle_manager;
pub mod utils;
pub mod vm;
