use vstd::prelude::*;

use super::times::fits_i128;

verus! {

/// A system time together with the offset that corrects it to the server's clock. Times are in microseconds.
#[derive(Clone, Copy, Debug)]
pub struct CorrectedTime {
    offset: i128,
    system_time: i128,
}

impl CorrectedTime {
    pub closed spec fn offset_spec(&self) -> i128 {
        self.offset
    }

    pub closed spec fn system_time_spec(&self) -> i128 {
        self.system_time
    }

    pub fn new(system_time: i128, offset: i128) -> (corrected: Self)
        ensures
            corrected.system_time_spec() == system_time,
            corrected.offset_spec() == offset,
    {
        CorrectedTime { offset, system_time }
    }

    pub fn offset(&self) -> (offset: i128)
        ensures
            offset == self.offset_spec(),
    {
        self.offset
    }

    pub fn system_time(&self) -> (system_time: i128)
        ensures
            system_time == self.system_time_spec(),
    {
        self.system_time
    }

    /// The corrected time: the system time moved by the offset.
    pub fn time(&self) -> (time: i128)
        requires
            fits_i128(self.system_time_spec() + self.offset_spec()),
        ensures
            time == self.system_time_spec() + self.offset_spec(),
    {
        self.system_time + self.offset
    }
}

} // verus!
