use vstd::prelude::*;

use crate::carton::stream::writing::write_u8;
use crate::carton::stream::Encode;
use crate::network::error::NetworkError;
use crate::network::network_stream::{integer_parse, NetworkReadStream, StreamDecode, StreamPosition};

verus! {

#[derive(Clone, Copy, Debug, PartialEq, Eq, Structural)]
pub enum DisconnectionReasonError {
    InvalidDisconnectionReason,
}

#[derive(Clone, Copy, Debug, PartialEq, Eq, Structural)]
pub enum DisconnectionReason {
    /// A client must send a `SubPayload::Disconnect` to the server with the `Requested` variant to be gracefully
    /// disconnected from the server.
    Requested,
    /// The server attempts to send a `Timeout` variant to the client's time-to-live has expired. Since a client that
    /// has timed out may not even be connected to the internet anymore, it is not expected that the client will
    /// receive the message.
    Timeout,
}

impl View for DisconnectionReason {
    type V = DisconnectionReason;

    open spec fn view(&self) -> DisconnectionReason {
        *self
    }
}

/// The byte that identifies a disconnection reason.
pub open spec fn reason_byte(reason: DisconnectionReason) -> u8 {
    match reason {
        DisconnectionReason::Requested => 1,
        DisconnectionReason::Timeout => 2,
    }
}

impl Encode for DisconnectionReason {
    open spec fn encodable(&self) -> bool {
        true
    }

    open spec fn encoding(&self) -> Seq<u8> {
        seq![reason_byte(*self)]
    }

    fn encode(&self, vector: &mut Vec<u8>) {
        match *self {
            DisconnectionReason::Requested => write_u8(1, vector),
            DisconnectionReason::Timeout => write_u8(2, vector),
        };
    }
}

impl StreamDecode for DisconnectionReason {
    open spec fn decodable(s: Seq<u8>) -> bool {
        true
    }

    open spec fn parse(s: Seq<u8>) -> Result<(DisconnectionReason, nat), NetworkError> {
        match integer_parse(s, 1) {
            Err(error) => Err(error),
            Ok((byte, length)) => if byte == 1 {
                Ok((DisconnectionReason::Requested, length))
            } else if byte == 2 {
                Ok((DisconnectionReason::Timeout, length))
            } else {
                Err(NetworkError::DisconnectionReason(DisconnectionReasonError::InvalidDisconnectionReason))
            },
        }
    }

    fn decode(stream: &mut NetworkReadStream) -> (result: Result<(Self, StreamPosition), NetworkError>) {
        proof {
            crate::network::network_stream::lemma_integer_parse_bound(stream.remaining(), 1);
            reveal_with_fuel(crate::carton::stream::byte_pow, 2);
        }
        let (byte, position) = match stream.read_u8() {
            Ok(pair) => pair,
            Err(error) => return Err(error),
        };
        let reason = match byte {
            1 => DisconnectionReason::Requested,
            2 => DisconnectionReason::Timeout,
            _ => return Err(NetworkError::DisconnectionReason(DisconnectionReasonError::InvalidDisconnectionReason)),
        };
        Ok((reason, position))
    }
}

} // verus!
