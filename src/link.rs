//! The byte link that the client talks over, and how the line is set up.

use vstd::prelude::*;

verus! {

/// Why the link could not do what was asked.
#[derive(Clone, Copy, Debug, PartialEq, Eq, Structural)]
pub enum LinkError {
    /// No byte arrived within the read timeout.
    Timeout,
    /// The line could not be opened, set up, read or written.
    Failed,
}

/// Serial line settings.
#[derive(Clone, Copy, Debug, PartialEq, Eq, Structural)]
pub struct LineConfig {
    pub baud_rate: u32,
    pub data_bits: u8,
    pub parity: bool,
    pub stop_bits: u8,
    pub flow_control: bool,
}

/// A half-duplex byte link to the device: a serial port, or a stand-in for one.
pub trait Link {
    /// Sets baud rate, character size, parity, stop bits and flow control.
    fn configure(&mut self, config: &LineConfig) -> Result<(), LinkError>;

    /// Sets how long a read waits for a byte.
    fn set_timeout_ms(&mut self, millis: u64) -> Result<(), LinkError>;

    /// Writes all of `bytes`.
    fn write_all(&mut self, bytes: &[u8]) -> Result<(), LinkError>;

    /// Reads one byte, waiting up to the timeout.
    fn read_byte(&mut self) -> Result<u8, LinkError>;

    /// Drives the line that enables the device high or low.
    fn set_signal(&mut self, high: bool) -> Result<(), LinkError>;

    /// Waits the given number of milliseconds.
    fn pause_ms(&mut self, millis: u64);
}

/// The line settings the device expects: 9600 baud, 8 data bits, no parity, one stop bit,
/// no flow control.
pub fn line_config() -> (r: LineConfig)
    ensures
        r == (LineConfig {
            baud_rate: 9600,
            data_bits: 8,
            parity: false,
            stop_bits: 1,
            flow_control: false,
        }),
{
    LineConfig { baud_rate: 9600, data_bits: 8, parity: false, stop_bits: 1, flow_control: false }
}

} // verus!
