use vstd::prelude::*;

use super::handshake::HandshakeError;
use super::payload::disconnect_reason::DisconnectionReasonError;
use super::payload::packet::PacketError;

verus! {

/// Describes the type of error encountered while working with a network stream.
#[derive(Clone, Copy, Debug, PartialEq, Eq, Structural)]
pub enum NetworkStreamError {
    InvalidDisconnectionReason,
    InvalidMagicNumber,
    InvalidSubPayloadType,
}

/// Emitted when a length-checked string read finds a length outside the allowed range.
#[derive(Clone, Copy, Debug, PartialEq, Eq, Structural)]
pub enum ReadStringSafeError {
    /// The string is shorter than the minimum length.
    TooShort,
    /// The string is longer than the maximum length.
    TooLong,
}

/// Every error that reading or decoding network data can emit.
#[derive(Clone, Copy, Debug, PartialEq, Eq, Structural)]
pub enum NetworkError {
    DisconnectionReason(DisconnectionReasonError),
    /// The stream ended before the value did.
    EndOfStream,
    Handshake(HandshakeError),
    Packet(PacketError),
    ReadStringSafe(ReadStringSafeError),
    Stream(NetworkStreamError),
}

} // verus!
