//! The dispatch engine: which job fires next, and when.

pub mod bucket;
pub mod bucket_scheduler;
pub mod heap_scheduler;
pub mod item;
pub mod timing_wheel_scheduler;
