//! Frame decoding and synchronisation for the Neato XV-11 spinning rangefinder.
//!
//! The sensor sends 22-byte frames over a serial link. This library checks
//! each frame's 15-bit checksum, decodes its four readings, and decides, one
//! step at a time, how a reader finds frame boundaries in the byte stream and
//! reacts to the consumer's run, pause and stop commands.
pub mod checksum;
pub mod data;
pub mod driver;
pub mod error;
pub mod frame;
pub mod message;

pub use checksum::calc_checksum;
pub use data::{LidarPacket, LidarReading};
pub use driver::{CommandPoll, Control, LidarDriver, Step, SyncPhase};
pub use error::{LidarDriverError, LidarReadingError};
pub use frame::parse_packet;
pub use message::{LidarDriverCommand, LidarDriverMessage};
