//! Shared pieces of the garbage-collected stores: the strictly positive
//! millisecond quantity used both as a time-to-live and as a bucket width.

pub mod counted;
pub mod map;
pub mod set;

use vstd::prelude::*;

verus! {

/// Error produced when a zero millisecond count is offered as a duration.
#[derive(Clone, Copy, Debug, PartialEq, Eq, Structural)]
pub struct InvalidDuration;

/// A strictly positive number of milliseconds.
///
/// A `Duration` serves both as a time-to-live and as the width of a garbage
/// collection slot; in either role it is used as a divisor, so zero is
/// rejected at construction and every `Duration` value satisfies `wf`.
#[derive(Clone, Copy, Debug)]
pub struct Duration(u64);

impl Duration {
    /// The stored millisecond count.
    pub closed spec fn spec_get(&self) -> u64 {
        self.0
    }

    /// Every constructed `Duration` holds a nonzero count.
    pub open spec fn wf(&self) -> bool {
        self.spec_get() > 0
    }

    /// Accepts any nonzero millisecond count and rejects zero.
    pub fn try_new(value: u64) -> (r: Result<Self, InvalidDuration>)
        ensures
            r is Ok <==> value != 0,
            r matches Ok(d) ==> d.wf() && d.spec_get() == value,
    {
        if value == 0 {
            Err(InvalidDuration)
        } else {
            Ok(Duration(value))
        }
    }

    /// The millisecond count; never zero.
    pub fn get(&self) -> (r: u64)
        ensures
            r == self.spec_get(),
    {
        self.0
    }
}

} // verus!
