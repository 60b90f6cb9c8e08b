//! Decoded readings and packets.
use vstd::prelude::*;

use crate::error::LidarReadingError;

verus! {

/// One distance reading.
///
/// When `error` is `InvalidDataError`, `distance` keeps the raw 16-bit field,
/// flag bit included, and `quality` carries no meaning.
#[derive(Debug, Clone, Copy, PartialEq, Eq, Structural)]
pub struct LidarReading {
    /// Angular slot of the reading, 0 to 359.
    pub index: usize,
    /// Distance in millimetres.
    pub distance: i32,
    /// Quality of the reading; higher is more reliable.
    pub quality: i32,
    /// Flag raised by the sensor on this reading, if any.
    pub error: Option<LidarReadingError>,
}

impl LidarReading {
    /// Makes a reading from its parts.
    pub fn new(index: usize, distance: i32, quality: i32, error: Option<LidarReadingError>) -> (r:
        Self)
        ensures
            r == (LidarReading { index, distance, quality, error }),
    {
        LidarReading { index, distance, quality, error }
    }
}

/// The abstract content of a packet: its readings in order and the raw spin
/// speed field.
pub ghost struct PacketModel {
    pub readings: Seq<LidarReading>,
    pub raw_speed: u16,
}

/// A decoded frame: four readings and the spin speed.
///
/// The speed is kept as the raw field, read little-endian from bytes 2 and 3
/// of the frame like every other field; the speed in revolutions per minute
/// is `raw_speed / 64`.
#[derive(Debug, Clone, PartialEq)]
pub struct LidarPacket {
    /// The four readings, in the order the frame carries them.
    pub readings: Vec<LidarReading>,
    /// The spin speed field, in units of 1/64 revolution per minute.
    pub raw_speed: u16,
}

impl View for LidarPacket {
    type V = PacketModel;

    open spec fn view(&self) -> PacketModel {
        PacketModel { readings: self.readings@, raw_speed: self.raw_speed }
    }
}

impl LidarPacket {
    /// Makes a packet from its readings and raw speed.
    pub fn new(readings: Vec<LidarReading>, raw_speed: u16) -> (r: Self)
        ensures
            r@ == (PacketModel { readings: readings@, raw_speed }),
    {
        LidarPacket { readings, raw_speed }
    }
}

} // verus!
