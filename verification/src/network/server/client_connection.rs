use vstd::prelude::*;

use crate::network::address::SocketAddress;
use crate::network::payload::acknowledge_mask::AcknowledgeMask;
use crate::network::payload::packet::Packet;

verus! {

/// Server representation of a connected client. Times are microseconds of the server's monotonic clock.
#[derive(Debug)]
pub struct ClientConnection {
    /// Server-side acknowledge mask for this client.
    pub acknowledge_mask: AcknowledgeMask,
    /// Address of the client.
    pub address: SocketAddress,
    /// The highest sequence number that the client said it had acknowledged.
    pub highest_acknowledge_received: Option<u32>,
    /// The last time we received information from the client.
    pub last_activity: u64,
    /// The last time we sent a ping to the client.
    pub last_ping_time: u64,
    /// The last sequence we received from the client.
    pub last_sequence_received: Option<u32>,
    /// The NTP id that the client uses to talk to us.
    pub ntp_id_client: u32,
    /// Each client has a new packet assigned to them every server tick. All information that needs to be sent that
    /// tick should be encoded into the client's outgoing packet. Clients can only be sent one packet per tick.
    pub outgoing_packet: Packet,
    /// The server-side sequence number. Server -> client packets will be identified using this sequence number.
    pub sequence: u32,
}

} // verus!
