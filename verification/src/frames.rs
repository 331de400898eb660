//! Frame envelope and payload types. Payloads mirror the firmware's sensor structs
//! field for field, so emit code is a field copy.
//!
//! Every `f32` quantity of the wire format is carried here as its IEEE-754 single-precision
//! bit pattern (the value of `f32::to_bits`), which is exactly what goes on the wire
//! (four little-endian bytes). Hosts convert with `f32::from_bits` at the display boundary.
use vstd::prelude::*;

verus! {

/// The versioned envelope. Every frame carries a board-monotonic timestamp so host plots
/// key on capture time, not host arrival time.
#[derive(Clone, Copy, Debug, PartialEq, Eq)]
pub struct Frame {
    /// Milliseconds since board boot. Wraps at ~49.7 days (`u32` ms).
    pub t_ms: u32,
    pub msg: Msg,
}

/// One telemetry message. The variant index goes on the wire as a varint.
///
/// Variant order is part of the wire format: only ever append, never reorder or remove
/// without bumping [`crate::PROTOCOL_VERSION`].
#[derive(Clone, Copy, Debug, PartialEq, Eq)]
pub enum Msg {
    /// Sent first on entering binary mode / on (re)connect.
    Hello(Hello),
    /// Heartbeat counter.
    Tick(u32),
    /// Raw 6-axis IMU sample.
    Imu(Imu),
    /// Barometric pressure + temperature.
    Baro(Baro),
    /// Magnetometer field + temperature.
    Mag(Mag),
    /// Fused attitude + air data; drives the PFD.
    Fused(Fused),
    /// Human-readable status / event line (mode acks, bring-up identity, errors).
    Status(Status),
}

/// Connection handshake / version gate.
#[derive(Clone, Copy, Debug, PartialEq, Eq)]
pub struct Hello {
    /// Equals [`crate::PROTOCOL_VERSION`] on the firmware. Host rejects a mismatch.
    pub proto: u16,
    /// Short firmware commit hash, ASCII, NUL-padded.
    pub fw_git: [u8; 8],
    pub board: Board,
}

/// Which board emitted the stream.
#[derive(Clone, Copy, Debug, PartialEq, Eq)]
pub enum Board {
    ArkDiscovery,
    HolybroDiscovery,
    /// Reported by a board the host build doesn't know about.
    Unknown,
}

/// Raw IMU sample (IIM-42653, ±16 g / ±2000 dps). Fields are `f32` bit patterns.
#[derive(Clone, Copy, Debug, PartialEq, Eq)]
pub struct Imu {
    /// X, Y, Z acceleration in g (gravitational units).
    pub accel_g: [u32; 3],
    /// X, Y, Z angular rate in degrees/second.
    pub gyro_dps: [u32; 3],
    /// Die temperature, Celsius.
    pub temp_c: u32,
}

/// Barometer sample (BMP388/390). Fields are `f32` bit patterns.
#[derive(Clone, Copy, Debug, PartialEq, Eq)]
pub struct Baro {
    /// Atmospheric pressure, hectopascals.
    pub pressure_hpa: u32,
    /// Die temperature, Celsius.
    pub temp_c: u32,
}

/// Magnetometer sample (IIS2MDC/LIS2MDL). Fields are `f32` bit patterns.
#[derive(Clone, Copy, Debug, PartialEq, Eq)]
pub struct Mag {
    /// X, Y, Z magnetic field, microtesla.
    pub field_ut: [u32; 3],
    /// Die temperature, Celsius.
    pub temp_c: u32,
}

/// Fused attitude + air data, SI/degrees on the wire. Fields are `f32` bit patterns.
#[derive(Clone, Copy, Debug, PartialEq, Eq)]
pub struct Fused {
    /// Roll, right-wing-down positive. Degrees.
    pub roll_deg: u32,
    /// Pitch, nose-up positive. Degrees.
    pub pitch_deg: u32,
    /// Yaw / magnetic heading, clockwise from north. Degrees, 0..360.
    pub yaw_deg: u32,
    /// Barometric altitude (ISA). Metres.
    pub altitude_m: u32,
    /// Vertical speed, climb positive. Metres/second.
    pub vertical_speed_mps: u32,
    /// Baro innovation (filter residual). Metres. Diagnostic.
    pub baro_residual_m: u32,
}

/// Severity of a [`Status`] line.
#[derive(Clone, Copy, Debug, PartialEq, Eq)]
pub enum Level {
    Info,
    Warn,
    Error,
}

/// A human-readable status / event line. `text` is fixed-size so the frame stays `Copy`;
/// it bounds the largest frame (see [`crate::codec::MAX_FRAME`]).
#[derive(Clone, Copy, Debug, PartialEq, Eq)]
pub struct Status {
    pub level: Level,
    /// ASCII message, NUL-padded. Trailing NULs are not part of the text.
    pub text: [u8; 48],
}

} // verus!
