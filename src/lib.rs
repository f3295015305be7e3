//! Core of a sampling CPU profiler: the profile data structure with
//! content-based interning, the frame-pointer stack walk, the per-task
//! thread bookkeeping and the drift-free sampling schedule.
pub mod kernel_error;
pub mod modules;
pub mod profile;
pub mod sampler;
pub mod task;
pub mod unwind;
