use rand::Rng;
use vstd::prelude::*;

use crate::network::address::SocketAddress;
use crate::network::error::NetworkError;
use crate::network::handshake::{handshake_bytes, handshake_parse, sendable_version, Handshake, HandshakeView, Version};
use crate::network::log::{log_line, Log, LogLevel};
use crate::network::network_stream::{NetworkReadStream, NetworkWriteStream, StreamDecode};
use crate::network::ntp::server::{ntp_request_bytes, NtpServer, NtpServerError};
use crate::network::payload::acknowledge_mask::AcknowledgeMask;
use crate::network::payload::disconnect_reason::DisconnectionReason;
use crate::network::payload::packet::{packet_bytes, packet_parse, Packet, PacketView};
use crate::network::payload::payload::SubPayload;

use super::client_connection::ClientConnection;
use super::client_table::ClientTable;

verus! {

/// Maximum size of a normal packet. Has to stay below 1500 bytes because MTUs are low on the internet. Set to 1400
/// since headers count towards the 1500 byte limit. If we send packets larger than 1400 bytes, then our packets will
/// be fragmented and possibly dropped.
pub const MAX_PACKET_SIZE: usize = 1400;

/// How long a client may stay silent before the server drops it, in microseconds.
pub const CLIENT_TIMEOUT: u64 = 30_000_000;

/// The kinds of socket errors that the network stack tells apart.
#[derive(Clone, Copy, Debug, PartialEq, Eq, Structural)]
pub enum SocketErrorKind {
    /// The socket has nothing to give right now.
    WouldBlock,
    AddrInUse,
    AddrNotAvailable,
    ConnectionRefused,
    Other,
}

#[derive(Debug)]
pub enum ServerError {
    /// Emitted if we receive data from a blacklisted IP. Non-fatal.
    Blacklisted(SocketAddress),
    /// Emitted if we encountered a problem during client connection creation. Non-fatal.
    ClientCreation,
    /// Emitted if we could not find a `ClientConnection` associated with an address.
    CouldNotFindClient,
    /// Emitted if the sender's address is not an IPv6 address. Non-fatal.
    InvalidIP,
    /// Emitted if we encountered a problem with network streams.
    NetworkStreamError(NetworkError),
    /// Wrapper for an error from the server NTP implementation
    NtpError(NtpServerError),
    /// Emitted if a received packet is too big to be an eggine packet. Non-fatal.
    PacketTooBig(SocketAddress),
    /// Emitted if we encountered an OS error during a socket operation.
    Socket(SocketErrorKind),
}

impl ServerError {
    /// Identifies whether or not the server needs a restart upon the emission of an error: only a socket error is.
    pub fn is_fatal(&self) -> (fatal: bool)
        ensures
            fatal == (self is Socket),
    {
        match self {
            ServerError::Blacklisted(_) => false,
            ServerError::ClientCreation => false,
            ServerError::CouldNotFindClient => false,
            ServerError::InvalidIP => false,
            ServerError::NetworkStreamError(_) => false,
            ServerError::NtpError(_) => false,
            ServerError::PacketTooBig(_) => false,
            ServerError::Socket(_) => true,
        }
    }
}

impl From<NetworkError> for ServerError {
    fn from(error: NetworkError) -> (result: Self)
        ensures
            result == ServerError::NetworkStreamError(error),
    {
        ServerError::NetworkStreamError(error)
    }
}

impl vstd::std_specs::convert::FromSpecImpl<NetworkError> for ServerError {
    open spec fn obeys_from_spec() -> bool {
        true
    }

    open spec fn from_spec(error: NetworkError) -> ServerError {
        ServerError::NetworkStreamError(error)
    }
}

impl From<NtpServerError> for ServerError {
    fn from(error: NtpServerError) -> (result: Self)
        ensures
            result == ServerError::NtpError(error),
    {
        ServerError::NtpError(error)
    }
}

impl vstd::std_specs::convert::FromSpecImpl<NtpServerError> for ServerError {
    open spec fn obeys_from_spec() -> bool {
        true
    }

    open spec fn from_spec(error: NtpServerError) -> ServerError {
        ServerError::NtpError(error)
    }
}

/// A random number from the thread's random number generator (`rand::thread_rng().gen::<u32>()`). Nothing is promised
/// of the number.
#[verifier::external_body]
pub(crate) fn random_u32() -> (number: u32) {
    rand::thread_rng().gen::<u32>()
}

/// The checksum of the network API that the server expects in handshakes.
pub open spec fn server_checksum() -> Seq<u8> {
    Seq::new(16, |i: int| 0u8)
}

/// Represents a server host in the eggine network stack. Serves many clients, which are considered untrusted sources
/// of information. The two communicate using a packet format built upon network streams. The caller owns the sockets
/// and the clocks: it hands received datagrams and times to the server, and sends the datagrams the server queues.
#[derive(Debug)]
pub struct Server {
    client_table: ClientTable,
    /// Handshake we compare client handshakes against.
    handshake: Handshake,
    log: Log,
    ntp_server: NtpServer,
    /// The stream we import data into when we receive data.
    receive_stream: NetworkReadStream,
    /// The stream we use to export data so we can sent it to a client.
    send_stream: NetworkWriteStream,
    /// Datagrams to send from the server's socket.
    outgoing: Vec<(SocketAddress, Vec<u8>)>,
    /// Datagrams to send from the NTP socket.
    ntp_outgoing: Vec<(SocketAddress, Vec<u8>)>,
    /// Log lines to print.
    lines: Vec<String>,
}

/// Datagrams as (address, bytes) pairs.
pub open spec fn datagrams(queue: Seq<(SocketAddress, Vec<u8>)>) -> Seq<(SocketAddress, Seq<u8>)> {
    queue.map_values(|datagram: (SocketAddress, Vec<u8>)| (datagram.0, datagram.1@))
}

impl Server {
    pub closed spec fn clients(&self) -> Map<SocketAddress, ClientConnection> {
        self.client_table.clients()
    }

    /// The order in which the server goes through its clients.
    pub closed spec fn client_order(&self) -> Seq<SocketAddress> {
        self.client_table.order()
    }

    pub proof fn lemma_client_order(&self)
        requires
            self.wf(),
        ensures
            self.client_order().no_duplicates(),
            forall|address: SocketAddress| #[trigger]
                self.clients().dom().contains(address) <==> self.client_order().contains(address),
    {
        self.client_table.lemma_order();
    }

    /// A server expects the checksum of the network API in handshakes, and sends a version it can send.
    pub proof fn lemma_wf_checksum(&self)
        requires
            self.wf(),
        ensures
            self.handshake_spec().checksum == server_checksum(),
            sendable_version(self.handshake_spec().version),
    {
    }

    pub closed spec fn blacklist(&self) -> Set<u128> {
        self.client_table.blacklist_spec()
    }

    pub closed spec fn handshake_spec(&self) -> HandshakeView {
        self.handshake@
    }

    pub closed spec fn ntp(&self) -> NtpServer {
        self.ntp_server
    }

    /// The datagrams queued for the server's socket.
    pub closed spec fn sent(&self) -> Seq<(SocketAddress, Seq<u8>)> {
        datagrams(self.outgoing@)
    }

    /// The datagrams queued for the NTP socket.
    pub closed spec fn ntp_sent(&self) -> Seq<(SocketAddress, Seq<u8>)> {
        datagrams(self.ntp_outgoing@)
    }

    pub closed spec fn wf(&self) -> bool {
        &&& self.client_table.wf()
        &&& self.ntp_server.wf()
        &&& self.receive_stream.wf()
        &&& self.send_stream@ == Seq::<u8>::empty()
        &&& self.handshake@.checksum == server_checksum()
        &&& sendable_version(self.handshake@.version)
    }

    /// Initialize the server for the socket bound to `address`; its NTP server listens on the next port. `precision`
    /// is how long reading the system time takes, in nanoseconds.
    pub fn new(address: SocketAddress, precision: u64) -> (server: Self)
        requires
            address.port_spec() < u16::MAX,
        ensures
            server.wf(),
            server.clients() == Map::<SocketAddress, ClientConnection>::empty(),
            server.blacklist() == Set::<u128>::empty(),
            server.handshake_spec().ntp_id == 0,
            server.handshake_spec().sequences == (0u32, 0u32),
            server.ntp().local_address() == address.with_port((address.port_spec() + 1) as u16),
            server.ntp().whitelist() == Set::<u128>::empty(),
            server.sent() == Seq::<(SocketAddress, Seq<u8>)>::empty(),
            server.ntp_sent() == Seq::<(SocketAddress, Seq<u8>)>::empty(),
    {
        let mut ntp_address = address;
        ntp_address.set_port(address.port() + 1);
        let server = Server {
            client_table: ClientTable::new(),
            handshake: Handshake {
                checksum: [0; 16],
                ntp_id: 0,
                sequences: (0, 0),
                version: Version { branch: "master".to_owned(), major: 0, minor: 0, revision: 0 },
            },
            log: Log::default(),
            ntp_server: NtpServer::new(ntp_address, None, precision),
            receive_stream: NetworkReadStream::new(),
            send_stream: NetworkWriteStream::new(),
            outgoing: Vec::new(),
            ntp_outgoing: Vec::new(),
            lines: Vec::new(),
        };
        proof {
            reveal_strlit("master");
            assert(server.handshake@.checksum =~= server_checksum());
            assert(server.sent() =~= Seq::<(SocketAddress, Seq<u8>)>::empty());
            assert(server.ntp_sent() =~= Seq::<(SocketAddress, Seq<u8>)>::empty());
        }
        server
    }

    /// The server's NTP server, to hand it the datagrams that arrive on the NTP socket.
    pub fn ntp_server_mut(&mut self) -> (ntp_server: &mut NtpServer)
        ensures
            *ntp_server == old(self).ntp(),
            final(self).ntp() == *final(ntp_server),
            final(self).clients() == old(self).clients(),
            final(self).blacklist() == old(self).blacklist(),
            final(self).handshake_spec() == old(self).handshake_spec(),
            final(self).sent() == old(self).sent(),
            final(self).ntp_sent() == old(self).ntp_sent(),
            old(self).wf() && final(ntp_server).wf() ==> final(self).wf(),
    {
        &mut self.ntp_server
    }

    /// Hands out the datagrams queued for the server's socket.
    pub fn take_outgoing(&mut self) -> (queue: Vec<(SocketAddress, Vec<u8>)>)
        ensures
            datagrams(queue@) == old(self).sent(),
            final(self).sent() == Seq::<(SocketAddress, Seq<u8>)>::empty(),
            final(self).ntp_sent() == old(self).ntp_sent(),
            final(self).clients() == old(self).clients(),
            final(self).blacklist() == old(self).blacklist(),
            final(self).handshake_spec() == old(self).handshake_spec(),
            final(self).ntp() == old(self).ntp(),
            old(self).wf() ==> final(self).wf(),
    {
        let mut queue = Vec::new();
        std::mem::swap(&mut queue, &mut self.outgoing);
        proof {
            assert(self.sent() =~= Seq::<(SocketAddress, Seq<u8>)>::empty());
        }
        queue
    }

    /// Hands out the datagrams queued for the NTP socket.
    pub fn take_ntp_outgoing(&mut self) -> (queue: Vec<(SocketAddress, Vec<u8>)>)
        ensures
            datagrams(queue@) == old(self).ntp_sent(),
            final(self).ntp_sent() == Seq::<(SocketAddress, Seq<u8>)>::empty(),
            final(self).sent() == old(self).sent(),
            final(self).clients() == old(self).clients(),
            final(self).blacklist() == old(self).blacklist(),
            final(self).handshake_spec() == old(self).handshake_spec(),
            final(self).ntp() == old(self).ntp(),
            old(self).wf() ==> final(self).wf(),
    {
        let mut queue = Vec::new();
        std::mem::swap(&mut queue, &mut self.ntp_outgoing);
        proof {
            assert(self.ntp_sent() =~= Seq::<(SocketAddress, Seq<u8>)>::empty());
        }
        queue
    }

    /// The log lines written since they were last taken.
    pub closed spec fn printed(&self) -> Seq<Seq<char>> {
        self.lines@.map_values(|line: String| line@)
    }

    /// Hands out the log lines written since the last call.
    pub fn take_lines(&mut self) -> (lines: Vec<String>)
        ensures
            final(self).sent() == old(self).sent(),
            final(self).ntp_sent() == old(self).ntp_sent(),
            final(self).clients() == old(self).clients(),
            final(self).blacklist() == old(self).blacklist(),
            final(self).handshake_spec() == old(self).handshake_spec(),
            final(self).ntp() == old(self).ntp(),
            old(self).wf() ==> final(self).wf(),
            lines@.map_values(|line: String| line@) == old(self).printed(),
            final(self).printed() == Seq::<Seq<char>>::empty(),
    {
        let mut lines = Vec::new();
        std::mem::swap(&mut lines, &mut self.lines);
        proof {
            assert(self.printed() =~= Seq::<Seq<char>>::empty());
        }
        lines
    }

    /// Writes a log line.
    fn print(&mut self, log_level: LogLevel, message: &str, indent: u8)
        ensures
            final(self).client_table == old(self).client_table,
            final(self).handshake == old(self).handshake,
            final(self).ntp_server == old(self).ntp_server,
            final(self).receive_stream == old(self).receive_stream,
            final(self).send_stream == old(self).send_stream,
            final(self).outgoing == old(self).outgoing,
            final(self).ntp_outgoing == old(self).ntp_outgoing,
            final(self).log@ == old(self).log@.push(log_line(log_level, message@, indent as nat)),
            final(self).printed() == old(self).printed().push(log_line(log_level, message@, indent as nat)),
    {
        let line = self.log.record(log_level, message.to_owned(), indent);
        let ghost text = line@;
        self.lines.push(line);
        proof {
            assert(self.printed() =~= old(self).printed().push(text));
        }
    }

    /// Ping a client at the specified address; `time` is the wall-clock time in milliseconds.
    pub fn ping(&mut self, source: SocketAddress, time: u64) -> (result: Result<(), ServerError>)
        requires
            old(self).wf(),
        ensures
            final(self).wf(),
            final(self).sent() == old(self).sent(),
            final(self).ntp_sent() == old(self).ntp_sent(),
            final(self).blacklist() == old(self).blacklist(),
            final(self).handshake_spec() == old(self).handshake_spec(),
            final(self).ntp() == old(self).ntp(),
            old(self).clients().dom().contains(source) ==> result is Ok && appended_at(
                old(self).clients(),
                final(self).clients(),
                source,
                old(self).clients()[source].last_activity,
                seq![SubPayload::Ping(time)],
            ),
            !old(self).clients().dom().contains(source) ==> (result matches Err(ServerError::CouldNotFindClient)
                && final(self).clients() == old(self).clients()),
    {
        let mut client = match self.client_table.take_client(&source) {
            Ok(client) => client,
            Err(error) => {
                proof {
                    assert(self.clients() =~= old(self).clients());
                }
                return Err(error);
            },
        };
        let ghost before = client;
        client.outgoing_packet.add_sub_payload(SubPayload::Ping(time));
        proof {
            assert(client.outgoing_packet@.sub_payloads =~= before.outgoing_packet@.sub_payloads + seq![
                SubPayload::Ping(time),
            ]);
            assert(appended(before, client, before.last_activity, seq![SubPayload::Ping(time)]));
        }
        self.client_table.add_client(source, client);
        proof {
            assert(self.clients().dom() =~= old(self).clients().dom());
        }
        Ok(())
    }
}

impl Server {
    /// Disconnect a client from the server: the client's outgoing packet gets a disconnect with `reason` and goes out
    /// to the client, and the client is removed.
    fn disconnect_client(&mut self, source: SocketAddress, reason: DisconnectionReason) -> (result: Result<
        (),
        ServerError,
    >)
        requires
            old(self).wf(),
        ensures
            final(self).wf(),
            final(self).ntp_sent() == old(self).ntp_sent(),
            final(self).blacklist() == old(self).blacklist(),
            final(self).handshake_spec() == old(self).handshake_spec(),
            final(self).ntp() == old(self).ntp(),
            final(self).clients() == old(self).clients().remove(source),
            old(self).clients().dom().contains(source) ==> (result is Ok && final(self).sent() == old(self).sent().push(
                (
                    source,
                    packet_bytes(
                        extended(
                            old(self).clients()[source].outgoing_packet@,
                            seq![SubPayload::Disconnect(reason)],
                        ),
                    ),
                ),
            )),
            !old(self).clients().dom().contains(source) ==> (result matches Err(ServerError::CouldNotFindClient)
                && final(self).sent() == old(self).sent()),
    {
        let mut client = match self.client_table.take_client(&source) {
            Ok(client) => client,
            Err(error) => return Err(error),
        };
        let ghost before = client.outgoing_packet@;
        client.outgoing_packet.add_sub_payload(SubPayload::Disconnect(reason));
        let _ = self.send_stream.encode(&client.outgoing_packet);
        self.print(LogLevel::Info, "disconnected client", 0);

        // the client was taken out of the table before we had a chance of erroring out during the send
        let bytes = match self.send_stream.export() {
            Ok(bytes) => bytes,
            Err(error) => return Err(ServerError::NetworkStreamError(error)),
        };
        let ghost sent_before = self.outgoing@;
        self.outgoing.push((source, bytes));
        proof {
            assert(client.outgoing_packet@.sub_payloads =~= before.sub_payloads + seq![SubPayload::Disconnect(reason)]);
            assert(client.outgoing_packet@ == extended(before, seq![SubPayload::Disconnect(reason)]));
            assert(self.sent() =~= datagrams(sent_before).push((source, bytes@)));
        }
        Ok(())
    }

    /// Attempt to initialize a connection with a new address who just talked to us: the data must be a handshake
    /// compatible with the server's, else the sender's IPv6 address `address` is blacklisted. The new client gets a
    /// random NTP id, its address may talk to the NTP server, and the server's handshake goes back to it with the
    /// sequence numbers and the NTP id. `now` is the monotonic time in microseconds.
    fn initialize_client(&mut self, source: SocketAddress, address: u128, handshake_buffer: Vec<u8>, now: u64) -> (result:
        Result<(), ServerError>)
        requires
            old(self).wf(),
        ensures
            final(self).wf(),
            final(self).ntp_sent() == old(self).ntp_sent(),
            initialized(*old(self), *final(self), source, address, handshake_buffer@, now, result),
    {
        let ghost bytes = handshake_buffer@;
        let _ = self.receive_stream.import(handshake_buffer);
        proof {
            assert(self.receive_stream.remaining() =~= bytes);
        }
        self.print(LogLevel::Info, "client talking", 0);

        // decode handshake
        let handshake = match self.receive_stream.decode::<Handshake>() {
            Ok((handshake, _)) => handshake,
            Err(error) => {
                self.print(LogLevel::Error, "could not decode handshake", 0);
                return Err(ServerError::NetworkStreamError(error));
            },
        };

        // check handshake
        if !self.handshake.is_compatible(&handshake) {
            self.print(LogLevel::Blacklist, "invalid handshake", 1);
            self.client_table.add_to_blacklist(address);
            return Err(ServerError::ClientCreation);
        }

        // figure out if they already joined on this ip/port
        if self.client_table.has_client(&source) {
            self.print(LogLevel::Error, "already connected", 1);
            return Err(ServerError::ClientCreation);
        }

        // we're home free, add the client to the client list
        let sequence: u32 = 500;
        let their_sequence: u32 = 1000;
        let their_ntp_id = random_u32();

        self.print(LogLevel::Info, "established client connection successfully", 1);
        self.client_table.add_client(
            source,
            ClientConnection {
                acknowledge_mask: AcknowledgeMask::default(),
                address: source,
                ntp_id_client: their_ntp_id,
                highest_acknowledge_received: Some(sequence),
                last_activity: now,
                last_ping_time: now,
                last_sequence_received: None,
                outgoing_packet: Packet::new(sequence, 0),
                sequence,
            },
        );

        // the client may now talk to the NTP server to get accurate times
        self.ntp_server.add_to_whitelist(address);

        self.handshake.sequences = (sequence, their_sequence);
        self.handshake.ntp_id = their_ntp_id;  // tell the client to use this ID

        // send our handshake to the client
        let _ = self.send_stream.encode(&self.handshake);
        let bytes = match self.send_stream.export() {
            Ok(bytes) => bytes,
            Err(error) => return Err(ServerError::NetworkStreamError(error)),
        };
        let ghost sent_before = self.outgoing@;
        self.outgoing.push((source, bytes));
        proof {
            assert(self.sent() =~= datagrams(sent_before).push((source, bytes@)));
        }
        Ok(())
    }
}

impl Server {
    /// Decode a packet from an already connected address and act on its sub-payloads in order: a ping is answered
    /// with a pong stamped `time` (wall-clock milliseconds), and a disconnect disconnects the client and stops the
    /// processing. `now` is the monotonic time in microseconds, the client's new last activity.
    fn decode_packet(&mut self, source: SocketAddress, buffer: Vec<u8>, now: u64, time: u64) -> (result: Result<
        (),
        ServerError,
    >)
        requires
            old(self).wf(),
            Packet::decodable(buffer@),
        ensures
            final(self).wf(),
            final(self).ntp_sent() == old(self).ntp_sent(),
            final(self).blacklist() == old(self).blacklist(),
            final(self).handshake_spec() == old(self).handshake_spec(),
            final(self).ntp() == old(self).ntp(),
            packet_handled(*old(self), *final(self), source, buffer@, now, time, result),
    {
        let ghost bytes = buffer@;
        let mut client = match self.client_table.take_client(&source) {
            Ok(client) => client,
            Err(error) => {
                proof {
                    assert(self.clients() =~= old(self).clients());
                }
                return Err(error);
            },
        };
        let ghost original = client;
        client.last_activity = now;
        let _ = self.receive_stream.import(buffer);
        proof {
            assert(self.receive_stream.remaining() =~= bytes);
            assert(client.outgoing_packet@.sub_payloads =~= original.outgoing_packet@.sub_payloads + Seq::<
                SubPayload,
            >::empty());
        }
        let packet = match self.receive_stream.decode::<Packet>() {
            Ok((packet, _)) => packet,
            Err(error) => {
                self.print(LogLevel::Error, "could not decode packet", 0);
                self.client_table.add_client(source, client);
                proof {
                    assert(self.clients().dom() =~= old(self).clients().dom());
                }
                return Err(ServerError::NetworkStreamError(error));
            },
        };

        // handle sub-payloads
        let sub_payloads = packet.get_sub_payloads();
        let ghost listed = sub_payloads@;
        let mut i: usize = 0;
        proof {
            assert(listed.take(0) =~= Seq::<SubPayload>::empty());
        }
        while i < sub_payloads.len()
            invariant
                self.wf(),
                bytes == buffer@,
                listed == sub_payloads@,
                listed == packet@.sub_payloads,
                packet_parse(bytes) matches Ok((view, _)) && view == packet@,
                i <= listed.len(),
                old(self).clients().dom().contains(source),
                original == old(self).clients()[source],
                self.clients() == old(self).clients().remove(source),
                self.ntp_sent() == old(self).ntp_sent(),
                self.sent() == old(self).sent(),
                self.blacklist() == old(self).blacklist(),
                self.handshake_spec() == old(self).handshake_spec(),
                self.ntp() == old(self).ntp(),
                appended(original, client, now, pongs(listed.take(i as int), time)),
                forall|j: int| 0 <= j < i ==> !(#[trigger] listed[j] is Disconnect),
            decreases listed.len() - i,
        {
            let ghost before = client.outgoing_packet@;
            proof {
                assert(listed.take(i + 1).drop_last() =~= listed.take(i as int));
            }
            match sub_payloads[i] {
                SubPayload::Disconnect(_) => {
                    self.print(LogLevel::Info, "got disconnect", 0);
                    self.client_table.add_client(source, client);
                    proof {
                        lemma_first_disconnect(listed, i as int);
                        let parsed = packet_parse(bytes)->Ok_0.0;
                        assert(parsed.sub_payloads == listed);
                        assert(first_disconnect(parsed.sub_payloads) == i);
                        assert(first_disconnect(parsed.sub_payloads) < parsed.sub_payloads.len());
                        assert(self.clients().remove(source) =~= old(self).clients().remove(source));
                        assert(before.sub_payloads + seq![SubPayload::Disconnect(DisconnectionReason::Requested)]
                            =~= original.outgoing_packet@.sub_payloads + (pongs(listed.take(i as int), time) + seq![
                            SubPayload::Disconnect(DisconnectionReason::Requested),
                        ]));
                        assert(extended(before, seq![SubPayload::Disconnect(DisconnectionReason::Requested)])
                            == extended(
                            original.outgoing_packet@,
                            pongs(listed.take(i as int), time) + seq![
                                SubPayload::Disconnect(DisconnectionReason::Requested),
                            ],
                        ));
                    }
                    // stop processing sub payloads now, the connection is now closed
                    return self.disconnect_client(source, DisconnectionReason::Requested);
                },
                SubPayload::Ping(_) => {
                    self.print(LogLevel::Info, "got ping", 0);

                    // send a pong to the client
                    client.outgoing_packet.add_sub_payload(SubPayload::Pong(time));
                    proof {
                        assert(client.outgoing_packet@.sub_payloads =~= original.outgoing_packet@.sub_payloads + pongs(
                            listed.take(i + 1),
                            time,
                        ));
                    }
                },
                SubPayload::Pong(_) => {
                    self.print(LogLevel::Info, "got pong", 0);
                    proof {
                        assert(pongs(listed.take(i + 1), time) =~= pongs(listed.take(i as int), time));
                    }
                },
            }
            i = i + 1;
        }
        proof {
            lemma_first_disconnect(listed, i as int);
            assert(listed.take(i as int) =~= listed);
        }
        self.client_table.add_client(source, client);
        proof {
            assert(self.clients().dom() =~= old(self).clients().dom());
        }
        Ok(())
    }

    /// Whether `recv` can finish on this datagram.
    pub fn can_receive(&self, source: SocketAddress, receive_buffer: &[u8], read_bytes: usize) -> (result: bool)
        requires
            self.wf(),
            read_bytes <= receive_buffer@.len(),
        ensures
            result == receivable(*self, source, receive_buffer@.take(read_bytes as int)),
    {
        let address = match source {
            SocketAddress::V6(ip, _) => ip,
            SocketAddress::V4(_, _) => return true,
        };
        if self.client_table.is_in_blacklist(address) || read_bytes > MAX_PACKET_SIZE || !self.client_table.has_client(
            &source,
        ) {
            return true;
        }
        let mut buffer: Vec<u8> = Vec::new();
        for i in 0..read_bytes
            invariant
                read_bytes <= receive_buffer@.len(),
                buffer@ == receive_buffer@.take(i as int),
        {
            buffer.push(receive_buffer[i]);
            proof {
                assert(receive_buffer@.take(i + 1) =~= receive_buffer@.take(i as int).push(receive_buffer@[i as int]));
            }
        }
        crate::network::payload::packet::can_decode(buffer.as_slice())
    }

    /// Receive a datagram of `read_bytes` bytes from `source`, read into `receive_buffer`. Only IPv6 senders that are
    /// not blacklisted are heard; a datagram bigger than an eggine packet gets its sender blacklisted. A packet from a
    /// connected client is decoded and acted on, anything else is taken for a handshake. `now` is the monotonic time
    /// in microseconds and `time` the wall-clock time in milliseconds.
    pub fn recv(&mut self, source: SocketAddress, receive_buffer: &[u8], read_bytes: usize, now: u64, time: u64) -> (result:
        Result<(), ServerError>)
        requires
            old(self).wf(),
            read_bytes <= receive_buffer@.len(),
            receivable(*old(self), source, receive_buffer@.take(read_bytes as int)),
        ensures
            final(self).wf(),
            final(self).ntp_sent() == old(self).ntp_sent(),
            received(*old(self), *final(self), source, receive_buffer@.take(read_bytes as int), now, time, result),
    {
        // the blacklist is kept by IPv6 address, whatever port the sender uses
        let address = match source {
            SocketAddress::V6(ip, _) => ip,
            SocketAddress::V4(_, _) => return Err(ServerError::InvalidIP),
        };

        // stop blacklisted data from continuing
        if self.client_table.is_in_blacklist(address) {
            return Err(ServerError::Blacklisted(source));
        }

        // make sure what we just read is not too big to be an eggine packet
        if read_bytes > MAX_PACKET_SIZE {
            self.print(LogLevel::Blacklist, "received too big of a packet", 0);
            self.client_table.add_to_blacklist(address);
            return Err(ServerError::PacketTooBig(source));
        }

        let mut buffer: Vec<u8> = Vec::new();
        for i in 0..read_bytes
            invariant
                read_bytes <= receive_buffer@.len(),
                buffer@ == receive_buffer@.take(i as int),
        {
            buffer.push(receive_buffer[i]);
            proof {
                assert(receive_buffer@.take(i + 1) =~= receive_buffer@.take(i as int).push(receive_buffer@[i as int]));
            }
        }

        // now we're done error checking, figure out what to do with the data we just got
        if self.client_table.has_client(&source) {
            self.decode_packet(source, buffer, now, time)
        } else {
            self.initialize_client(source, address, buffer, now)
        }
    }
}

impl Server {
    /// The first part of a tick: every client whose outgoing packet holds something gets it sent, its sequence number
    /// advanced, and a fresh packet for the next tick.
    fn send_outgoing(&mut self) -> (result: Result<(), ServerError>)
        requires
            old(self).wf(),
        ensures
            final(self).wf(),
            result is Ok,
            final(self).ntp_sent() == old(self).ntp_sent(),
            final(self).blacklist() == old(self).blacklist(),
            final(self).handshake_spec() == old(self).handshake_spec(),
            final(self).ntp() == old(self).ntp(),
            final(self).clients().dom() == old(self).clients().dom(),
            forall|address: SocketAddress| #[trigger]
                old(self).clients().dom().contains(address) ==> after_send(
                    old(self).clients()[address],
                    final(self).clients()[address],
                ),
            final(self).sent() == old(self).sent() + outgoing_batch(old(self).clients(), old(self).client_order()),
    {
        // send client outgoing packets
        let sources = self.client_table.client_addresses();
        proof {
            self.lemma_client_order();
            assert(sources@.take(0) =~= Seq::<SocketAddress>::empty());
            assert(old(self).sent() + Seq::<(SocketAddress, Seq<u8>)>::empty() =~= old(self).sent());
        }
        for k in 0..sources.len()
            invariant
                self.wf(),
                sources@ == old(self).client_order(),
                sources@.no_duplicates(),
                forall|address: SocketAddress| #[trigger]
                    old(self).clients().dom().contains(address) <==> sources@.contains(address),
                self.ntp_sent() == old(self).ntp_sent(),
                self.blacklist() == old(self).blacklist(),
                self.handshake_spec() == old(self).handshake_spec(),
                self.ntp() == old(self).ntp(),
                self.clients().dom() == old(self).clients().dom(),
                forall|j: int|
                    0 <= j < k ==> after_send(
                        old(self).clients()[#[trigger] sources@[j]],
                        self.clients()[sources@[j]],
                    ),
                forall|address: SocketAddress| #[trigger]
                    self.clients().dom().contains(address) && !sources@.take(k as int).contains(address)
                        ==> self.clients()[address] == old(self).clients()[address],
                self.sent() == old(self).sent() + outgoing_batch(old(self).clients(), sources@.take(k as int)),
        {
            let source = sources[k];
            proof {
                assert(sources@.contains(source));
                assert(!sources@.take(k as int).contains(source)) by {
                    if sources@.take(k as int).contains(source) {
                        let j = choose|j: int| 0 <= j < k && sources@.take(k as int)[j] == source;
                        assert(sources@[j] == sources@[k as int]);
                    }
                }
                assert(sources@.take(k + 1).drop_last() =~= sources@.take(k as int));
            }
            let ghost before_clients = self.clients();
            let ghost before_sent = self.sent();
            let mut client = match self.client_table.take_client(&source) {
                Ok(client) => client,
                Err(error) => return Err(error),
            };
            let ghost original = client;
            if client.outgoing_packet.get_sub_payloads().len() > 0 {
                // only send packets if we have information to send
                client.sequence = client.sequence.wrapping_add(1);
                let last_sequence = match client.last_sequence_received {
                    Some(sequence) => sequence,
                    None => 0,
                };
                client.outgoing_packet.prepare(client.acknowledge_mask, client.sequence, last_sequence);
                let _ = self.send_stream.encode(&client.outgoing_packet);
                let bytes = match self.send_stream.export() {
                    Ok(bytes) => bytes,
                    Err(error) => return Err(ServerError::NetworkStreamError(error)),
                };
                let ghost queued = self.outgoing@;
                self.outgoing.push((source, bytes));
                proof {
                    assert(client.outgoing_packet@ == prepared(original));
                    assert(self.sent() =~= datagrams(queued).push((source, bytes@)));
                }

                // reset the client's outgoing packet so we can write new information into it
                client.outgoing_packet = Packet::new(client.sequence, last_sequence);
            }
            self.client_table.add_client(source, client);
            proof {
                assert(after_send(original, client));
                assert(self.clients().dom() =~= old(self).clients().dom());
                assert(self.sent() =~= old(self).sent() + outgoing_batch(old(self).clients(), sources@.take(k + 1)));
                assert forall|j: int| 0 <= j < k + 1 implies after_send(
                    old(self).clients()[#[trigger] sources@[j]],
                    self.clients()[sources@[j]],
                ) by {
                    if j < k {
                        assert(sources@[j] != source) by {
                            assert(sources@[j] != sources@[k as int]);
                        }
                    }
                }
                assert forall|address: SocketAddress| #[trigger]
                    self.clients().dom().contains(address) && !sources@.take(k + 1).contains(address)
                        implies self.clients()[address] == old(self).clients()[address] by {
                    assert(address != source) by {
                        if address == source {
                            assert(sources@.take(k + 1)[k as int] == source);
                        }
                    }
                    assert(!sources@.take(k as int).contains(address)) by {
                        if sources@.take(k as int).contains(address) {
                            let j = choose|j: int| 0 <= j < k && sources@.take(k as int)[j] == address;
                            assert(sources@.take(k + 1)[j] == address);
                        }
                    }
                }
            }
        }
        proof {
            assert(sources@.take(sources@.len() as int) =~= sources@);
        }
        Ok(())
    }
}

impl Server {
    /// Perform all network functions for this tick: send the clients' pending packets, receive `arrived`, the
    /// datagrams that arrived, each `(source, bytes)`, then disconnect the clients that have been silent for longer
    /// than `CLIENT_TIMEOUT` at `now` (monotonic microseconds) and send every remaining client's NTP peer a time
    /// request stamped `ntp_time`. `time` is the wall-clock time in milliseconds that pongs carry. An error met while
    /// receiving ends the tick only when it is fatal.
    pub fn tick(&mut self, arrived: &Vec<(SocketAddress, Vec<u8>)>, now: u64, time: u64, ntp_time: i128) -> (result:
        Result<(), ServerError>)
        requires
            old(self).wf(),
            forall|sent: Server| #[trigger]
                sent_outgoing(*old(self), sent) ==> hearable(sent, datagrams(arrived@), now, time),
        ensures
            final(self).wf(),
            result is Ok,
            ticked(*old(self), *final(self), datagrams(arrived@), now, time, ntp_time),
    {
        let _ = self.send_outgoing();
        let ghost sent = *self;
        let ghost all = datagrams(arrived@);
        proof {
            assert(sent_outgoing(*old(self), sent));
            assert(all.skip(0) =~= all);
            assert(all.take(0) =~= Seq::<(SocketAddress, Seq<u8>)>::empty());
        }
        for i in 0..arrived.len()
            invariant
                self.wf(),
                all == datagrams(arrived@),
                heard(sent, *self, all.take(i as int), now, time),
                hearable(*self, all.skip(i as int), now, time),
        {
            let ghost before = *self;
            let (source, bytes) = (arrived[i].0, &arrived[i].1);
            proof {
                assert(all.skip(i as int)[0] == all[i as int]);
                assert(bytes@.take(bytes@.len() as int) =~= bytes@);
            }
            let received_result = self.recv(source, bytes.as_slice(), bytes.len(), now, time);
            proof {
                lemma_received_not_socket(before, *self, source, bytes@, now, time, received_result);
                assert(all.skip(i as int).drop_first() =~= all.skip(i + 1));
                assert(all.take(i + 1).drop_last() =~= all.take(i as int));
                assert(all.take(i + 1).last() == all[i as int]);
                assert(heard(sent, *self, all.take(i + 1), now, time));
            }
            match received_result {
                Ok(()) => {},
                Err(error) => {
                    if error.is_fatal() {
                        return Err(error);
                    }
                },
            }
        }
        proof {
            assert(all.take(all.len() as int) =~= all);
        }
        let ghost heard_all = *self;
        let _ = self.expire_and_sync(now, ntp_time);
        proof {
            assert(expired_and_synced(heard_all, *self, now, ntp_time));
            assert(ticked(*old(self), *self, all, now, time, ntp_time));
        }
        Ok(())
    }
}

impl Server {
    /// The last part of a tick: clients that have been silent for longer than `CLIENT_TIMEOUT` at `now` (monotonic
    /// microseconds) are disconnected, then every remaining client's NTP peer, on the port after the client's, gets a
    /// time synchronization request stamped `ntp_time`.
    fn expire_and_sync(&mut self, now: u64, ntp_time: i128) -> (result: Result<(), ServerError>)
        requires
            old(self).wf(),
        ensures
            final(self).wf(),
            result is Ok,
            final(self).blacklist() == old(self).blacklist(),
            final(self).handshake_spec() == old(self).handshake_spec(),
            forall|address: SocketAddress| #[trigger]
                final(self).clients().dom().contains(address) <==> (old(self).clients().dom().contains(address)
                    && !timed_out(old(self).clients()[address], now)),
            forall|address: SocketAddress| #[trigger]
                final(self).clients().dom().contains(address) ==> final(self).clients()[address] == old(
                    self,
                ).clients()[address],
            final(self).sent() == old(self).sent() + timeout_batch(old(self).clients(), old(self).client_order(), now),
            final(self).ntp_sent().len() == old(self).ntp_sent().len() + final(self).client_order().len(),
            final(self).ntp_sent().take(old(self).ntp_sent().len() as int) == old(self).ntp_sent(),
            forall|i: int|
                0 <= i < final(self).client_order().len() ==> #[trigger] final(self).ntp_sent()[old(
                    self,
                ).ntp_sent().len() + i] == (
                    ntp_peer(final(self).client_order()[i]),
                    ntp_request_bytes(request_index(old(self).ntp().indexes(), ntp_peer(final(self).client_order()[i]))),
                ),
            final(self).ntp().indexes() == synced_indexes(old(self).ntp().indexes(), final(self).client_order()),
            final(self).ntp().whitelist() == old(self).ntp().whitelist(),
            final(self).ntp().registers() == old(self).ntp().registers(),
    {
        // find clients that have lived for too long, and force disconnects on them
        let sources = self.client_table.client_addresses();
        proof {
            self.lemma_client_order();
            assert(sources@.take(0) =~= Seq::<SocketAddress>::empty());
            assert(old(self).sent() + Seq::<(SocketAddress, Seq<u8>)>::empty() =~= old(self).sent());
        }
        for k in 0..sources.len()
            invariant
                self.wf(),
                sources@ == old(self).client_order(),
                sources@.no_duplicates(),
                forall|address: SocketAddress| #[trigger]
                    old(self).clients().dom().contains(address) <==> sources@.contains(address),
                self.ntp_sent() == old(self).ntp_sent(),
                self.blacklist() == old(self).blacklist(),
                self.handshake_spec() == old(self).handshake_spec(),
                self.ntp() == old(self).ntp(),
                forall|address: SocketAddress| #[trigger]
                    self.clients().dom().contains(address) <==> (old(self).clients().dom().contains(address) && !(
                    sources@.take(k as int).contains(address) && timed_out(old(self).clients()[address], now))),
                forall|address: SocketAddress| #[trigger]
                    self.clients().dom().contains(address) ==> self.clients()[address] == old(self).clients()[address],
                self.sent() == old(self).sent() + timeout_batch(old(self).clients(), sources@.take(k as int), now),
        {
            let source = sources[k];
            proof {
                assert(sources@.contains(source));
                assert(!sources@.take(k as int).contains(source)) by {
                    if sources@.take(k as int).contains(source) {
                        let j = choose|j: int| 0 <= j < k && sources@.take(k as int)[j] == source;
                        assert(sources@[j] == sources@[k as int]);
                    }
                }
                assert(sources@.take(k + 1).drop_last() =~= sources@.take(k as int));
                assert forall|address: SocketAddress| #[trigger] sources@.take(k + 1).contains(address) <==> (
                sources@.take(k as int).contains(address) || address == source) by {
                    if sources@.take(k + 1).contains(address) {
                        let j = choose|j: int| 0 <= j < k + 1 && #[trigger] sources@.take(k + 1)[j] == address;
                        if j < k {
                            assert(sources@.take(k as int)[j] == address);
                        }
                    }
                    if sources@.take(k as int).contains(address) {
                        let j = choose|j: int| 0 <= j < k && sources@.take(k as int)[j] == address;
                        assert(sources@.take(k + 1)[j] == address);
                    }
                    if address == source {
                        assert(sources@.take(k + 1)[k as int] == address);
                    }
                }
            }
            proof {
                assert(self.clients().dom().contains(source));
                assert(sources@.take(k + 1).last() == source);
            }
            let last_activity = match self.client_table.get_client(&source) {
                Ok(client) => client.last_activity,
                Err(error) => return Err(error),
            };
            if now.saturating_sub(last_activity) > CLIENT_TIMEOUT {
                self.print(LogLevel::Error, "timed out", 0);
                match self.disconnect_client(source, DisconnectionReason::Timeout) {
                    Ok(()) => {},
                    Err(error) => return Err(error),
                }
            }
            proof {
                assert(self.sent() =~= old(self).sent() + timeout_batch(
                    old(self).clients(),
                    sources@.take(k + 1),
                    now,
                ));
            }
        }
        proof {
            assert(sources@.take(sources@.len() as int) =~= sources@);
        }
        let ghost queued = self.ntp_sent();
        let ghost settled = self.clients();
        let ghost settled_sent = self.sent();

        // send NTP packets to all clients
        let peers = self.client_table.client_addresses();
        let ghost start_indexes = self.ntp().indexes();
        proof {
            self.lemma_client_order();
        }
        for k in 0..peers.len()
            invariant
                self.wf(),
                peers@ == self.client_order(),
                queued == old(self).ntp_sent(),
                self.ntp_sent().len() == queued.len() + k,
                self.ntp_sent().take(queued.len() as int) == queued,
                peers@.no_duplicates(),
                forall|i: int|
                    0 <= i < k ==> #[trigger] self.ntp_sent()[queued.len() + i] == (
                        ntp_peer(peers@[i]),
                        ntp_request_bytes(request_index(start_indexes, ntp_peer(peers@[i]))),
                    ),
                self.ntp().indexes() == synced_indexes(start_indexes, peers@.take(k as int)),
                self.blacklist() == old(self).blacklist(),
                self.handshake_spec() == old(self).handshake_spec(),
                self.ntp().whitelist() == old(self).ntp().whitelist(),
                self.ntp().registers() == old(self).ntp().registers(),
                self.clients() == settled,
                self.sent() == settled_sent,
        {
            let mut peer = peers[k];
            peer.set_port(peers[k].port().wrapping_add(1));
            let ghost before = self.ntp_outgoing@;
            let ghost indexes = self.ntp_server.indexes();
            proof {
                assert(peer == ntp_peer(peers@[k as int]));
                assert forall|j: int| 0 <= j < k implies ntp_peer(#[trigger] peers@.take(k as int)[j]) != peer by {
                    assert(peers@[j] != peers@[k as int]);
                    lemma_ntp_peer_injective(peers@[j], peers@[k as int]);
                }
                lemma_synced_untouched(start_indexes, peers@.take(k as int), peer);
            }
            match self.ntp_server.sync_time(Some(peer), ntp_time) {
                Ok((target, bytes)) => {
                    self.ntp_outgoing.push((target, bytes));
                    proof {
                        assert(peers@.take(k + 1).drop_last() =~= peers@.take(k as int));
                        assert(peers@.take(k + 1).last() == peers@[k as int]);
                        assert(bytes@ == ntp_request_bytes(request_index(start_indexes, target)));
                        assert(self.ntp_sent() =~= datagrams(before).push((target, bytes@)));
                        assert(self.ntp_sent()[queued.len() + k] == (target, bytes@));
                    }
                },
                Err(error) => {
                    if error.is_fatal() {
                        return Err(ServerError::NtpError(error));
                    }
                },
            }
            proof {
                assert(self.ntp_sent().take(queued.len() as int) =~= queued);
            }
        }
        proof {
            assert(peers@.take(peers@.len() as int) =~= peers@);
        }
        Ok(())
    }
}

/// What the sending part of a tick makes of a server: each client's pending packet is sent in client order and the
/// client made ready for the next one; nothing else changes.
pub open spec fn sent_outgoing(before: Server, after: Server) -> bool {
    &&& after.wf()
    &&& after.ntp_sent() == before.ntp_sent()
    &&& after.blacklist() == before.blacklist()
    &&& after.handshake_spec() == before.handshake_spec()
    &&& after.ntp() == before.ntp()
    &&& after.clients().dom() == before.clients().dom()
    &&& forall|address: SocketAddress| #[trigger]
        before.clients().dom().contains(address) ==> after_send(before.clients()[address], after.clients()[address])
    &&& after.sent() == before.sent() + outgoing_batch(before.clients(), before.client_order())
}

/// What the last part of a tick makes of a server at `now`: the clients that timed out are sent a timeout disconnect
/// and removed, the others stay as they are, and every remaining client's NTP peer is sent a time request.
pub open spec fn expired_and_synced(before: Server, after: Server, now: u64, ntp_time: i128) -> bool {
    &&& after.wf()
    &&& after.blacklist() == before.blacklist()
    &&& after.handshake_spec() == before.handshake_spec()
    &&& forall|address: SocketAddress| #[trigger]
        after.clients().dom().contains(address) <==> (before.clients().dom().contains(address) && !timed_out(
            before.clients()[address],
            now,
        ))
    &&& forall|address: SocketAddress| #[trigger]
        after.clients().dom().contains(address) ==> after.clients()[address] == before.clients()[address]
    &&& after.sent() == before.sent() + timeout_batch(before.clients(), before.client_order(), now)
    &&& after.ntp_sent().len() == before.ntp_sent().len() + after.client_order().len()
    &&& after.ntp_sent().take(before.ntp_sent().len() as int) == before.ntp_sent()
    &&& forall|i: int|
        0 <= i < after.client_order().len() ==> #[trigger] after.ntp_sent()[before.ntp_sent().len() + i] == (
            ntp_peer(after.client_order()[i]),
            ntp_request_bytes(request_index(before.ntp().indexes(), ntp_peer(after.client_order()[i]))),
        )
    &&& after.ntp().indexes() == synced_indexes(before.ntp().indexes(), after.client_order())
    &&& after.ntp().whitelist() == before.ntp().whitelist()
    &&& after.ntp().registers() == before.ntp().registers()
}

/// Whether receiving `datagrams` one after another, starting from `server`, never meets a datagram that cannot be
/// handled, whatever each earlier datagram made of the server.
pub open spec fn hearable(server: Server, datagrams: Seq<(SocketAddress, Seq<u8>)>, now: u64, time: u64) -> bool
    decreases datagrams.len(),
{
    datagrams.len() == 0 || (receivable(server, datagrams[0].0, datagrams[0].1) && forall|
        after: Server,
        result: Result<(), ServerError>,
    |
        #[trigger] received(server, after, datagrams[0].0, datagrams[0].1, now, time, result) && after.wf()
            ==> hearable(after, datagrams.drop_first(), now, time))
}

/// Whether `after` is what receiving `datagrams` one after another makes of `before`, none of them meeting a fatal
/// error.
pub open spec fn heard(
    before: Server,
    after: Server,
    datagrams: Seq<(SocketAddress, Seq<u8>)>,
    now: u64,
    time: u64,
) -> bool
    decreases datagrams.len(),
{
    if datagrams.len() == 0 {
        after == before
    } else {
        exists|middle: Server, result: Result<(), ServerError>|
            heard(before, middle, datagrams.drop_last(), now, time) && middle.wf() && #[trigger] received(
                middle,
                after,
                datagrams.last().0,
                datagrams.last().1,
                now,
                time,
                result,
            ) && !(result matches Err(ServerError::Socket(_)))
    }
}

/// What a whole tick makes of a server: the pending packets are sent, the datagrams are received, then timed-out
/// clients are disconnected and the remaining clients' NTP peers are sent time requests.
pub open spec fn ticked(
    before: Server,
    after: Server,
    datagrams: Seq<(SocketAddress, Seq<u8>)>,
    now: u64,
    time: u64,
    ntp_time: i128,
) -> bool {
    exists|sent: Server, heard_all: Server|
        sent_outgoing(before, sent) && #[trigger] heard(sent, heard_all, datagrams, now, time) && expired_and_synced(
            heard_all,
            after,
            now,
            ntp_time,
        )
}

/// After a tick at `now`, no client that has been silent for longer than `CLIENT_TIMEOUT` at `now` is left.
pub proof fn tick_leaves_no_silent_client(
    before: Server,
    after: Server,
    datagrams: Seq<(SocketAddress, Seq<u8>)>,
    now: u64,
    time: u64,
    ntp_time: i128,
    address: SocketAddress,
)
    requires
        ticked(before, after, datagrams, now, time, ntp_time),
        after.clients().dom().contains(address),
    ensures
        !timed_out(after.clients()[address], now),
{
    let (sent, heard_all) = choose|sent: Server, heard_all: Server|
        sent_outgoing(before, sent) && #[trigger] heard(sent, heard_all, datagrams, now, time) && expired_and_synced(
            heard_all,
            after,
            now,
            ntp_time,
        );
    assert(after.clients().dom().contains(address));
    assert(heard_all.clients().dom().contains(address) && !timed_out(heard_all.clients()[address], now));
}

/// Whether a client has been silent for longer than `CLIENT_TIMEOUT` at `now`.
pub open spec fn timed_out(client: ClientConnection, now: u64) -> bool {
    now > client.last_activity + CLIENT_TIMEOUT
}

/// Receiving a datagram never meets a socket error: the caller owns the socket.
proof fn lemma_received_not_socket(
    before: Server,
    after: Server,
    source: SocketAddress,
    bytes: Seq<u8>,
    now: u64,
    time: u64,
    result: Result<(), ServerError>,
)
    requires
        received(before, after, source, bytes, now, time, result),
    ensures
        !(result matches Err(ServerError::Socket(_))),
{
}

/// The address of a client's NTP peer: the client's address on the next port, wrapping around.
pub open spec fn ntp_peer(address: SocketAddress) -> SocketAddress {
    address.with_port(if address.port_spec() == u16::MAX { 0 } else { (address.port_spec() + 1) as u16 })
}

/// The last NTP packet index sent to each peer, after one request to the NTP peer of each client in `order`.
pub open spec fn synced_indexes(indexes: Map<SocketAddress, u8>, order: Seq<SocketAddress>) -> Map<SocketAddress, u8>
    decreases order.len(),
{
    if order.len() == 0 {
        indexes
    } else {
        let before = synced_indexes(indexes, order.drop_last());
        let peer = ntp_peer(order.last());
        before.insert(peer, request_index(before, peer))
    }
}

/// Requests to the NTP peers of other clients leave a peer's last index as it was.
proof fn lemma_synced_untouched(indexes: Map<SocketAddress, u8>, order: Seq<SocketAddress>, peer: SocketAddress)
    requires
        forall|j: int| 0 <= j < order.len() ==> ntp_peer(#[trigger] order[j]) != peer,
    ensures
        request_index(synced_indexes(indexes, order), peer) == request_index(indexes, peer),
    decreases order.len(),
{
    if order.len() > 0 {
        let init = order.drop_last();
        assert forall|j: int| 0 <= j < init.len() implies ntp_peer(#[trigger] init[j]) != peer by {
            assert(init[j] == order[j]);
        }
        lemma_synced_untouched(indexes, init, peer);
        assert(ntp_peer(order[order.len() - 1]) != peer);
    }
}

/// Different clients have different NTP peers.
pub proof fn lemma_ntp_peer_injective(first: SocketAddress, second: SocketAddress)
    requires
        first != second,
    ensures
        ntp_peer(first) != ntp_peer(second),
{
}

/// The packet index of the next NTP request to `peer`, given the last index sent to each peer: one past the last, or 1
/// for a peer that got none.
pub open spec fn request_index(indexes: Map<SocketAddress, u8>, peer: SocketAddress) -> u8 {
    crate::network::ntp::server::next_index(
        if indexes.dom().contains(peer) {
            indexes[peer]
        } else {
            0
        },
    )
}

/// The disconnect datagrams that the timed-out clients get, going through the clients in `order`.
pub open spec fn timeout_batch(clients: Map<SocketAddress, ClientConnection>, order: Seq<SocketAddress>, now: u64) -> Seq<
    (SocketAddress, Seq<u8>),
>
    decreases order.len(),
{
    if order.len() == 0 {
        Seq::empty()
    } else {
        let earlier = timeout_batch(clients, order.drop_last(), now);
        let client = clients[order.last()];
        if timed_out(client, now) {
            earlier.push(
                (
                    order.last(),
                    packet_bytes(extended(client.outgoing_packet@, seq![SubPayload::Disconnect(DisconnectionReason::Timeout)])),
                ),
            )
        } else {
            earlier
        }
    }
}

/// The next sequence number, wrapping around.
pub open spec fn next_sequence(sequence: u32) -> u32 {
    if sequence == u32::MAX {
        0
    } else {
        (sequence + 1) as u32
    }
}

/// The last sequence received from a client, or 0 when none was.
pub open spec fn last_received(client: ClientConnection) -> u32 {
    match client.last_sequence_received {
        Some(sequence) => sequence,
        None => 0,
    }
}

/// The packet that goes out to a client: its outgoing packet with the header carrying the client's acknowledge mask,
/// its next sequence number and the last sequence received from it.
pub open spec fn prepared(client: ClientConnection) -> PacketView {
    PacketView {
        acknowledge_mask: seq![client.acknowledge_mask.words().0, client.acknowledge_mask.words().1],
        extensions: client.outgoing_packet@.extensions,
        sub_payloads: client.outgoing_packet@.sub_payloads,
        highest_acknowledged_sequence: last_received(client),
        sequence_number: next_sequence(client.sequence),
    }
}

/// Whether a client is as sending its outgoing packet leaves it: a client with something to send has its sequence
/// number advanced and a fresh packet; any other client is unchanged.
pub open spec fn after_send(client: ClientConnection, next: ClientConnection) -> bool {
    if client.outgoing_packet@.sub_payloads.len() > 0 {
        &&& next.acknowledge_mask == client.acknowledge_mask
        &&& next.address == client.address
        &&& next.highest_acknowledge_received == client.highest_acknowledge_received
        &&& next.last_activity == client.last_activity
        &&& next.last_ping_time == client.last_ping_time
        &&& next.last_sequence_received == client.last_sequence_received
        &&& next.ntp_id_client == client.ntp_id_client
        &&& next.sequence == next_sequence(client.sequence)
        &&& next.outgoing_packet@.acknowledge_mask == seq![0u64, 0u64]
        &&& next.outgoing_packet@.extensions == Set::<crate::network::payload::packet::PacketExtension>::empty()
        &&& next.outgoing_packet@.sub_payloads == Seq::<SubPayload>::empty()
        &&& next.outgoing_packet@.highest_acknowledged_sequence == last_received(client)
        &&& next.outgoing_packet@.sequence_number == next_sequence(client.sequence)
    } else {
        next == client
    }
}

/// The datagrams that sending the clients' outgoing packets queues, going through the clients in `order`.
pub open spec fn outgoing_batch(clients: Map<SocketAddress, ClientConnection>, order: Seq<SocketAddress>) -> Seq<
    (SocketAddress, Seq<u8>),
>
    decreases order.len(),
{
    if order.len() == 0 {
        Seq::empty()
    } else {
        let earlier = outgoing_batch(clients, order.drop_last());
        let client = clients[order.last()];
        if client.outgoing_packet@.sub_payloads.len() > 0 {
            earlier.push((order.last(), packet_bytes(prepared(client))))
        } else {
            earlier
        }
    }
}

/// Whether the server's state is as it was.
pub open spec fn unchanged(before: Server, after: Server) -> bool {
    &&& after.clients() == before.clients()
    &&& after.blacklist() == before.blacklist()
    &&& after.sent() == before.sent()
    &&& after.handshake_spec() == before.handshake_spec()
    &&& after.ntp() == before.ntp()
}

/// What handling a packet from the client at `source` does: the client's last activity becomes `now`, then the
/// packet's sub-payloads are acted on up to the first disconnect: each ping gets a pong stamped `time`. A disconnect
/// removes the client and sends it its outgoing packet with the pongs and a disconnect appended.
pub open spec fn packet_handled(
    before: Server,
    after: Server,
    source: SocketAddress,
    bytes: Seq<u8>,
    now: u64,
    time: u64,
    result: Result<(), ServerError>,
) -> bool {
    if !before.clients().dom().contains(source) {
        result matches Err(ServerError::CouldNotFindClient) && after.clients() == before.clients() && after.sent()
            == before.sent()
    } else {
        match packet_parse(bytes) {
            Err(error) => {
                &&& result matches Err(ServerError::NetworkStreamError(emitted)) && emitted == error
                &&& appended_at(before.clients(), after.clients(), source, now, Seq::empty())
                &&& after.sent() == before.sent()
            },
            Ok((packet, _)) => {
                let cut = first_disconnect(packet.sub_payloads);
                let answers = pongs(packet.sub_payloads.take(cut), time);
                if cut < packet.sub_payloads.len() {
                    &&& result is Ok
                    &&& after.clients() == before.clients().remove(source)
                    &&& after.sent() == before.sent().push(
                        (
                            source,
                            packet_bytes(
                                extended(
                                    before.clients()[source].outgoing_packet@,
                                    answers + seq![SubPayload::Disconnect(DisconnectionReason::Requested)],
                                ),
                            ),
                        ),
                    )
                } else {
                    &&& result is Ok
                    &&& appended_at(before.clients(), after.clients(), source, now, answers)
                    &&& after.sent() == before.sent()
                }
            },
        }
    }
}

/// Whether receiving `bytes` from `source` runs to a result: a packet from a connected client must not hold a
/// reserved sub-payload type.
pub open spec fn receivable(server: Server, source: SocketAddress, bytes: Seq<u8>) -> bool {
    (source matches SocketAddress::V6(ip, _) && !server.blacklist().contains(ip) && bytes.len() <= MAX_PACKET_SIZE
        && server.clients().dom().contains(source)) ==> Packet::decodable(bytes)
}

/// What receiving `bytes` from `source` does.
pub open spec fn received(
    before: Server,
    after: Server,
    source: SocketAddress,
    bytes: Seq<u8>,
    now: u64,
    time: u64,
    result: Result<(), ServerError>,
) -> bool {
    match source {
        SocketAddress::V4(_, _) => result matches Err(ServerError::InvalidIP) && unchanged(before, after),
        SocketAddress::V6(ip, _) => if before.blacklist().contains(ip) {
            result matches Err(ServerError::Blacklisted(sender)) && sender == source && unchanged(before, after)
        } else if bytes.len() > MAX_PACKET_SIZE {
            &&& result matches Err(ServerError::PacketTooBig(sender)) && sender == source
            &&& after.blacklist() == before.blacklist().insert(ip)
            &&& after.clients() == before.clients()
            &&& after.sent() == before.sent()
            &&& after.handshake_spec() == before.handshake_spec()
            &&& after.ntp() == before.ntp()
        } else if before.clients().dom().contains(source) {
            &&& packet_handled(before, after, source, bytes, now, time, result)
            &&& after.blacklist() == before.blacklist()
            &&& after.handshake_spec() == before.handshake_spec()
            &&& after.ntp() == before.ntp()
        } else {
            initialized(before, after, source, ip, bytes, now, result)
        },
    }
}

/// Whether a client connection is the one the server makes for a new client at `source`, with NTP id `ntp_id`, at
/// time `now`.
pub open spec fn new_client(client: ClientConnection, source: SocketAddress, now: u64, ntp_id: u32) -> bool {
    &&& client.acknowledge_mask@ == 0
    &&& client.address == source
    &&& client.highest_acknowledge_received == Some(500u32)
    &&& client.last_activity == now
    &&& client.last_ping_time == now
    &&& client.last_sequence_received is None
    &&& client.ntp_id_client == ntp_id
    &&& client.sequence == 500
    &&& client.outgoing_packet@.acknowledge_mask == seq![0u64, 0u64]
    &&& client.outgoing_packet@.extensions == Set::<crate::network::payload::packet::PacketExtension>::empty()
    &&& client.outgoing_packet@.sub_payloads == Seq::<SubPayload>::empty()
    &&& client.outgoing_packet@.highest_acknowledged_sequence == 0
    &&& client.outgoing_packet@.sequence_number == 500
}

/// What handling a handshake from a new address does: a handshake that does not decode is reported; one whose
/// checksum differs from the server's gets the IPv6 address `address` blacklisted; an address that already has a
/// client is refused; otherwise the client is added with a new NTP id, its address may talk to the NTP server, and the
/// server's handshake, with the sequence numbers 500 and 1000 and the new NTP id, is sent to it.
pub open spec fn initialized(
    before: Server,
    after: Server,
    source: SocketAddress,
    address: u128,
    bytes: Seq<u8>,
    now: u64,
    result: Result<(), ServerError>,
) -> bool {
    match handshake_parse(bytes) {
        Err(error) => {
            &&& result matches Err(ServerError::NetworkStreamError(emitted)) && emitted == error
            &&& after.clients() == before.clients()
            &&& after.blacklist() == before.blacklist()
            &&& after.sent() == before.sent()
            &&& after.handshake_spec() == before.handshake_spec()
            &&& after.ntp() == before.ntp()
        },
        Ok((theirs, _)) => if theirs.checksum != before.handshake_spec().checksum {
            &&& result matches Err(ServerError::ClientCreation)
            &&& after.clients() == before.clients()
            &&& after.blacklist() == before.blacklist().insert(address)
            &&& after.sent() == before.sent()
            &&& after.handshake_spec() == before.handshake_spec()
            &&& after.ntp() == before.ntp()
        } else if before.clients().dom().contains(source) {
            &&& result matches Err(ServerError::ClientCreation)
            &&& after.clients() == before.clients()
            &&& after.blacklist() == before.blacklist()
            &&& after.sent() == before.sent()
            &&& after.handshake_spec() == before.handshake_spec()
            &&& after.ntp() == before.ntp()
        } else {
            let client = after.clients()[source];
            &&& result is Ok
            &&& new_client(client, source, now, client.ntp_id_client)
            &&& after.clients() == before.clients().insert(source, client)
            &&& after.blacklist() == before.blacklist()
            &&& after.handshake_spec() == HandshakeView {
                checksum: before.handshake_spec().checksum,
                ntp_id: client.ntp_id_client,
                sequences: (500u32, 1000u32),
                version: before.handshake_spec().version,
            }
            &&& after.sent() == before.sent().push((source, handshake_bytes(after.handshake_spec())))
            &&& after.ntp().whitelist() == before.ntp().whitelist().insert(address)
            &&& after.ntp().indexes() == before.ntp().indexes()
            &&& after.ntp().sent() == before.ntp().sent()
            &&& after.ntp().registers() == before.ntp().registers()
        },
    }
}

/// A packet with `extra` sub-payloads appended.
pub open spec fn extended(packet: PacketView, extra: Seq<SubPayload>) -> PacketView {
    PacketView {
        acknowledge_mask: packet.acknowledge_mask,
        extensions: packet.extensions,
        sub_payloads: packet.sub_payloads + extra,
        highest_acknowledged_sequence: packet.highest_acknowledged_sequence,
        sequence_number: packet.sequence_number,
    }
}

/// A client connection whose outgoing packet got `sub_payloads` appended and whose last activity is
/// `last_activity`, and nothing else changed.
pub open spec fn appended(
    client: ClientConnection,
    next: ClientConnection,
    last_activity: u64,
    sub_payloads: Seq<SubPayload>,
) -> bool {
    &&& next.acknowledge_mask == client.acknowledge_mask
    &&& next.address == client.address
    &&& next.highest_acknowledge_received == client.highest_acknowledge_received
    &&& next.last_activity == last_activity
    &&& next.last_ping_time == client.last_ping_time
    &&& next.last_sequence_received == client.last_sequence_received
    &&& next.ntp_id_client == client.ntp_id_client
    &&& next.sequence == client.sequence
    &&& next.outgoing_packet@ == extended(client.outgoing_packet@, sub_payloads)
}

/// The clients after the client at `source` was changed as `appended` says, and nothing else changed.
pub open spec fn appended_at(
    clients: Map<SocketAddress, ClientConnection>,
    next: Map<SocketAddress, ClientConnection>,
    source: SocketAddress,
    last_activity: u64,
    sub_payloads: Seq<SubPayload>,
) -> bool {
    &&& next.dom() == clients.dom()
    &&& appended(clients[source], next[source], last_activity, sub_payloads)
    &&& forall|address: SocketAddress| #[trigger]
        clients.dom().contains(address) && address != source ==> next[address] == clients[address]
}

/// The index of the first disconnect among the sub-payloads, or their count when there is none.
pub open spec fn first_disconnect(sub_payloads: Seq<SubPayload>) -> int
    decreases sub_payloads.len(),
{
    if sub_payloads.len() == 0 {
        0
    } else if sub_payloads[0] is Disconnect {
        0
    } else {
        1 + first_disconnect(sub_payloads.drop_first())
    }
}

/// The answers to sub-payloads: a pong stamped `time` for each ping.
pub open spec fn pongs(sub_payloads: Seq<SubPayload>, time: u64) -> Seq<SubPayload>
    decreases sub_payloads.len(),
{
    if sub_payloads.len() == 0 {
        Seq::empty()
    } else {
        pongs(sub_payloads.drop_last(), time) + if sub_payloads.last() is Ping {
            seq![SubPayload::Pong(time)]
        } else {
            Seq::empty()
        }
    }
}

/// The first disconnect is at `i` when none comes before it and one is at `i` or the sub-payloads end there.
pub proof fn lemma_first_disconnect(sub_payloads: Seq<SubPayload>, i: int)
    requires
        0 <= i <= sub_payloads.len(),
        forall|j: int| 0 <= j < i ==> !(#[trigger] sub_payloads[j] is Disconnect),
        i == sub_payloads.len() || sub_payloads[i] is Disconnect,
    ensures
        first_disconnect(sub_payloads) == i,
    decreases i,
{
    if i > 0 {
        let rest = sub_payloads.drop_first();
        assert(!(sub_payloads[0] is Disconnect));
        assert forall|j: int| 0 <= j < i - 1 implies !(#[trigger] rest[j] is Disconnect) by {
            assert(rest[j] == sub_payloads[j + 1]);
        }
        if i < sub_payloads.len() {
            assert(rest[i - 1] == sub_payloads[i]);
        }
        lemma_first_disconnect(rest, i - 1);
    }
}

} // verus!
