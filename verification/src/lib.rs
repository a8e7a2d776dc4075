//! A scheduler of recurring jobs, in process.
//!
//! Schedules are written with a fluent builder, compiled into cron
//! expressions and kept in a dispatch queue, from which the job that is due
//! next is taken. The library decides and reckons; sleeping, spawning and
//! calling the handlers is left to the program around it, which tells the
//! library what time it is.

pub mod cache;
pub mod calendar;
pub mod extensions;
pub mod interval;
pub mod job;
pub mod prelude;
pub mod scheduler;
pub mod text;
pub mod zone;
