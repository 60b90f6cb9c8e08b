//! Errors reported per reading and by the driver.
use vstd::prelude::*;

verus! {

/// The serial crate's error type, carried by the driver errors that come
/// from opening and configuring the port.
#[verifier::external_type_specification]
#[verifier::external_body]
pub struct ExSerialError(serial::Error);

/// std's I/O error type, carried by the driver error for a failed read.
#[verifier::external_type_specification]
#[verifier::external_body]
pub struct ExIoError(std::io::Error);

/// A flag that the sensor raised on one reading.
#[derive(Debug, Clone, Copy, PartialEq, Eq, Structural)]
pub enum LidarReadingError {
    /// The invalid-data flag was set; the value is the error code, the low
    /// byte of the distance field.
    InvalidDataError(i32),
    /// The signal-strength warning flag was set.
    SignalStrengthWarning,
}

/// An error reported by the driver.
#[derive(Debug)]
pub enum LidarDriverError {
    /// A frame failed its checksum; the value is the frame's index (0 to 89).
    Checksum(usize),
    /// The serial port could not be configured.
    Configure(serial::Error),
    /// The serial port could not be opened.
    OpenSerialPort(serial::Error),
    /// A frame arrived without a valid header while synchronised.
    ResyncRequired,
    /// Reading from the serial port failed.
    SerialRead(std::io::Error),
    /// The serial port's read timeout could not be set.
    SetTimeout(serial::Error),
}

/// Two driver errors are equal when both are checksum errors at the same
/// frame index. No other error is equal to anything, itself included.
pub open spec fn driver_errors_equal(a: &LidarDriverError, b: &LidarDriverError) -> bool {
    match (a, b) {
        (LidarDriverError::Checksum(x), LidarDriverError::Checksum(y)) => x == y,
        _ => false,
    }
}

impl PartialEq for LidarDriverError {
    fn eq(&self, other: &LidarDriverError) -> (r: bool)
        ensures
            r == driver_errors_equal(self, other),
    {
        match (self, other) {
            (LidarDriverError::Checksum(x), LidarDriverError::Checksum(y)) => *x == *y,
            _ => false,
        }
    }
}

impl vstd::std_specs::cmp::PartialEqSpecImpl for LidarDriverError {
    open spec fn obeys_eq_spec() -> bool {
        true
    }

    open spec fn eq_spec(&self, other: &LidarDriverError) -> bool {
        driver_errors_equal(self, other)
    }
}

} // verus!
