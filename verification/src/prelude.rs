//! What a program that schedules jobs needs at hand.

pub use crate::extensions::{Data, Extensions, TypeKey};
pub use crate::interval::{Interval, TimeUnits};
pub use crate::job::firing::{FiringStep, FiringTask};
pub use crate::job::{BaseJobBuilder, Job, JobBuilder, JobId};
pub use crate::scheduler::heap_scheduler::{Dispatch, HeapScheduler};
pub use crate::scheduler::timing_wheel_scheduler::TimingWheelScheduler;
pub use crate::zone::Zone;
