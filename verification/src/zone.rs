//! Time zones, as fixed offsets from UTC.

use crate::calendar::local_offset_seconds;
use vstd::prelude::*;

verus! {

/// A time zone: a fixed number of seconds east of UTC, less than a day
/// either way.
#[derive(Clone, Copy, Debug)]
pub struct Zone {
    east: i32,
}

impl Zone {
    #[verifier::type_invariant]
    spec fn in_range(self) -> bool {
        -86_400 < self.east < 86_400
    }

    /// The seconds east of UTC.
    pub closed spec fn offset(self) -> i32 {
        self.east
    }

    /// UTC itself.
    pub fn utc() -> (zone: Zone)
        ensures
            zone.offset() == 0,
    {
        Zone { east: 0 }
    }

    /// The zone `secs` seconds east of UTC, where that is less than a day
    /// either way.
    pub fn east(secs: i32) -> (zone: Option<Zone>)
        ensures
            zone is Some <==> -86_400 < secs < 86_400,
            zone matches Some(z) ==> z.offset() == secs,
    {
        if -86_400 < secs && secs < 86_400 {
            Some(Zone { east: secs })
        } else {
            None
        }
    }

    /// The zone of the host, as its offset stands now.
    pub fn local() -> (zone: Zone)
        ensures
            -86_400 < zone.offset() < 86_400,
    {
        Zone { east: local_offset_seconds() }
    }

    /// The seconds east of UTC.
    pub fn east_seconds(&self) -> (secs: i32)
        ensures
            secs == self.offset(),
            -86_400 < secs < 86_400,
    {
        proof {
            use_type_invariant(self);
        }
        self.east
    }
}

} // verus!
