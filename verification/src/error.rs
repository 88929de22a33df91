//! The errors that the decoder reports.

use crate::fec::{FecHeaderError, Orientation};
use crate::rtp::RtpHeaderError;
use vstd::prelude::*;

verus! {

#[derive(Debug, Clone, Copy, PartialEq, Eq, Structural)]
pub enum FecDecodeError {
    Rtp(RtpHeaderError),
    Fec(FecHeaderError),
    Orientation { actual: Orientation, expected: Orientation },
    /// Ran out of space trying to queue a recovered packet for further recovery processing
    NoSpaceForRecovered,
}

impl From<RtpHeaderError> for FecDecodeError {
    fn from(v: RtpHeaderError) -> (res: Self) {
        FecDecodeError::Rtp(v)
    }
}

impl vstd::std_specs::convert::FromSpecImpl<RtpHeaderError> for FecDecodeError {
    open spec fn obeys_from_spec() -> bool {
        true
    }

    open spec fn from_spec(v: RtpHeaderError) -> Self {
        FecDecodeError::Rtp(v)
    }
}

impl From<FecHeaderError> for FecDecodeError {
    fn from(v: FecHeaderError) -> (res: Self) {
        FecDecodeError::Fec(v)
    }
}

impl vstd::std_specs::convert::FromSpecImpl<FecHeaderError> for FecDecodeError {
    open spec fn obeys_from_spec() -> bool {
        true
    }

    open spec fn from_spec(v: FecHeaderError) -> Self {
        FecDecodeError::Fec(v)
    }
}

} // verus!
