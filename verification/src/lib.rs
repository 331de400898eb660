//! Shared telemetry wire format for the `discovery-*` flight-controller family.
//!
//! ```text
//! USB CDC byte stream
//!   └─ COBS frame   (0x00 delimiter; self-synchronizing)
//!        └─ frame bytes (see `wire`)
//!             └─ Frame { t_ms, msg }
//! ```
use vstd::prelude::*;

pub mod codec;
pub mod frames;
pub mod framing;
pub mod layout;
pub mod wire;

pub use frames::{Baro, Board, Frame, Fused, Hello, Imu, Level, Mag, Msg, Status};

verus! {

/// Wire-format version. Bump on any change an old decoder would misread: reordering
/// [`frames::Msg`] variants, changing a field's type/order, or removing a field.
/// Negotiated via the [`frames::Hello`] frame.
pub const PROTOCOL_VERSION: u16 = 2;

} // verus!
