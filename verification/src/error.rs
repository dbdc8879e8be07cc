//! The error type shared by the whole library.

use std::io;
use std::num::ParseIntError;
use vstd::prelude::*;
use vstd::string::to_string_from_display_ensures;

verus! {

/// `std::num::ParseIntError`, carried opaquely inside [`Error::ParseInt`].
#[verifier::external_type_specification]
#[verifier::external_body]
pub struct ExParseIntError(std::num::ParseIntError);

/// `std::io::Error`, carried opaquely inside [`Error::Io`].
#[verifier::external_type_specification]
#[verifier::external_body]
pub struct ExIoError(std::io::Error);

/// Everything that can go wrong while reading CPU groups or scheduling cores.
#[derive(Debug)]
pub enum Error {
    ParseInt(ParseIntError),
    Io(io::Error),
    InvalidCpuRange,
    NoCpuGroups,
    CpuIndexTooHigh,
    CpuIndexOverlaps,
    KernelIgnoredSchedSetAffinity,
    OutOfCpuGroups,
}

pub type Result<T> = core::result::Result<T, Error>;

impl From<io::Error> for Error {
    fn from(e: io::Error) -> (r: Self) {
        Error::Io(e)
    }
}

impl vstd::std_specs::convert::FromSpecImpl<io::Error> for Error {
    open spec fn obeys_from_spec() -> bool {
        true
    }

    open spec fn from_spec(e: io::Error) -> Self {
        Error::Io(e)
    }
}

impl From<ParseIntError> for Error {
    fn from(e: ParseIntError) -> (r: Self) {
        Error::ParseInt(e)
    }
}

impl vstd::std_specs::convert::FromSpecImpl<ParseIntError> for Error {
    open spec fn obeys_from_spec() -> bool {
        true
    }

    open spec fn from_spec(e: ParseIntError) -> Self {
        Error::ParseInt(e)
    }
}

impl Error {
    /// The message that describes the error to a user.
    pub fn to_string(&self) -> (s: String)
        ensures
            *self is InvalidCpuRange ==> s@ == "Invalid CPU range"@,
            *self is NoCpuGroups ==> s@ == "No CPU groups"@,
            *self is CpuIndexTooHigh ==> s@ == "CPU index too high"@,
            *self is CpuIndexOverlaps ==> s@ == "CPU index overlaps"@,
            *self is KernelIgnoredSchedSetAffinity ==> s@ == "Kernel ignored sched_setaffinity()"@,
            *self is OutOfCpuGroups ==> s@ == "Not enough CPU groups to fit FAH cores in"@,
            *self matches Error::ParseInt(e) ==> to_string_from_display_ensures::<ParseIntError>(
                &e,
                s,
            ),
            *self matches Error::Io(e) ==> to_string_from_display_ensures::<io::Error>(&e, s),
    {
        match self {
            Error::ParseInt(e) => e.to_string(),
            Error::Io(e) => e.to_string(),
            Error::InvalidCpuRange => "Invalid CPU range".to_string(),
            Error::NoCpuGroups => "No CPU groups".to_string(),
            Error::CpuIndexTooHigh => "CPU index too high".to_string(),
            Error::CpuIndexOverlaps => "CPU index overlaps".to_string(),
            Error::KernelIgnoredSchedSetAffinity => "Kernel ignored sched_setaffinity()".to_string(),
            Error::OutOfCpuGroups => "Not enough CPU groups to fit FAH cores in".to_string(),
        }
    }
}

} // verus!
