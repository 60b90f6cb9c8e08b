//! Commands to the driver and messages from it.
use vstd::prelude::*;

use crate::data::LidarPacket;

verus! {

/// A command from the consumer to the driver.
#[derive(Debug, Clone, Copy, PartialEq, Eq, Structural)]
pub enum LidarDriverCommand {
    /// Stop reading from the sensor until `Run` arrives.
    Pause,
    /// Read from the sensor.
    Run,
    /// Leave the read loop.
    Stop,
}

impl LidarDriverCommand {
    /// The command's name.
    pub fn label(&self) -> (r: &'static str)
        ensures
            r@ == match self {
                LidarDriverCommand::Pause => "Pause"@,
                LidarDriverCommand::Run => "Run"@,
                LidarDriverCommand::Stop => "Stop"@,
            },
    {
        match self {
            LidarDriverCommand::Pause => "Pause",
            LidarDriverCommand::Run => "Run",
            LidarDriverCommand::Stop => "Stop",
        }
    }
}

/// A message from the driver to the consumer.
#[derive(Debug)]
pub enum LidarDriverMessage {
    /// A decoded frame.
    Packet(LidarPacket),
    /// The driver is shutting down; always the last message.
    Shutdown,
}

} // verus!
