use vstd::prelude::*;

use crate::network::address::SocketAddress;
use crate::network::error::NetworkError;
use crate::network::handshake::{
    handshake_bytes, handshake_parse, handshake_roundtrip, lemma_handshake_bytes_len, sendable_version, Handshake,
    HandshakeView, Version,
};
use crate::network::log::{log_line, Log, LogLevel};
use crate::network::network_stream::{NetworkReadStream, NetworkWriteStream, StreamDecode};
use crate::network::ntp::server::{ntp_request_bytes, NtpServer, NtpServerError};
use crate::network::payload::acknowledge_mask::AcknowledgeMask;
use crate::network::payload::disconnect_reason::DisconnectionReason;
use crate::network::payload::packet::{packet_bytes, packet_parse, Packet, PacketView};
use crate::network::payload::payload::SubPayload;
use crate::network::server::server::{
    new_client, received, Server, ServerError, extended, first_disconnect, lemma_first_disconnect, next_sequence, pongs, random_u32, request_index, server_checksum,
    SocketErrorKind, MAX_PACKET_SIZE,
};

verus! {

#[derive(Debug)]
pub enum ClientError {
    /// Emitted if we could not talk to the server.
    ConnectionRefused,
    /// Emitted if we were disconnected by the server. Fatal.
    Disconnected(DisconnectionReason),
    /// Received an invalid handshake. We likely talked to a random UDP server. Fatal.
    Handshake,
    /// Emitted if we encountered a problem with network streams.
    NetworkStreamError(NetworkError),
    /// Wrapper for an error from the client NTP implementation
    NtpError(NtpServerError),
    /// Emitted if a received packet is too big to be an eggine packet. Non-fatal.
    PacketTooBig,
    /// Emitted if we encountered an OS error during a socket operation.
    Socket(SocketErrorKind),
    /// Emitted if a socket call would block. With the non-blocking flag set, this indicates that we have consumed all
    /// available packets from the socket at the moment. Non-fatal.
    WouldBlock,
}

impl ClientError {
    /// Identifies whether or not the client needs a restart upon the emission of an error.
    pub fn is_fatal(&self) -> (fatal: bool)
        ensures
            fatal == fatal_error(*self),
    {
        match self {
            ClientError::ConnectionRefused => true,
            ClientError::Disconnected(_) => true,
            ClientError::Handshake => true,
            ClientError::NetworkStreamError(_) => false,
            ClientError::NtpError(error) => error.is_fatal(),
            ClientError::PacketTooBig => false,
            ClientError::Socket(_) => true,
            ClientError::WouldBlock => false,
        }
    }
}

impl From<NetworkError> for ClientError {
    fn from(error: NetworkError) -> (result: Self)
        ensures
            result == ClientError::NetworkStreamError(error),
    {
        ClientError::NetworkStreamError(error)
    }
}

impl vstd::std_specs::convert::FromSpecImpl<NetworkError> for ClientError {
    open spec fn obeys_from_spec() -> bool {
        true
    }

    open spec fn from_spec(error: NetworkError) -> ClientError {
        ClientError::NetworkStreamError(error)
    }
}

impl From<NtpServerError> for ClientError {
    fn from(error: NtpServerError) -> (result: Self)
        ensures
            result == ClientError::NtpError(error),
    {
        ClientError::NtpError(error)
    }
}

impl vstd::std_specs::convert::FromSpecImpl<NtpServerError> for ClientError {
    open spec fn obeys_from_spec() -> bool {
        true
    }

    open spec fn from_spec(error: NtpServerError) -> ClientError {
        ClientError::NtpError(error)
    }
}

/// A client connection in the eggine network stack. Clients connect to servers, which are treated as a trusted source
/// of information. The two communicate using a packet format built upon network streams. The caller owns the sockets
/// and the clocks: it hands received datagrams and times to the client, and sends the datagrams the client queues.
#[derive(Debug)]
pub struct Client {
    /// Acknowledge mask for this client.
    acknowledge_mask: AcknowledgeMask,
    /// True if the server accepted our handshake and we're in a state where we are ready to exchange packets.
    connection_initialized: bool,
    /// The handshake we send to the server upon connection initialization.
    handshake: Handshake,
    /// The highest sequence number that the server said it had acknowledged.
    highest_acknowledge_received: Option<u32>,
    /// The last time we received data from the server, in microseconds of the monotonic clock.
    last_activity: u64,
    /// The last sequence we received from the server.
    last_sequence_received: Option<u32>,
    log: Log,
    /// The NTP id that we use to talk to the server.
    ntp_id_client: u32,
    /// The NTP id that the server uses to talk to us.
    ntp_id_server: u32,
    ntp_server: Option<NtpServer>,
    /// We place all outgoing data into this packet.
    outgoing_packet: Packet,
    /// The stream we import data into when we receive data.
    receive_stream: NetworkReadStream,
    /// The stream we use to export data so we can sent it to the server.
    send_stream: NetworkWriteStream,
    /// The client-side sequence number. Client -> server packets will be identified using this sequence number.
    sequence: u32,
    /// Datagrams to send to the server.
    outgoing: Vec<Vec<u8>>,
    /// Datagrams to send from the NTP socket.
    ntp_outgoing: Vec<(SocketAddress, Vec<u8>)>,
    /// Log lines to print.
    lines: Vec<String>,
}

impl Client {
    pub closed spec fn initialized(&self) -> bool {
        self.connection_initialized
    }

    pub closed spec fn handshake_spec(&self) -> HandshakeView {
        self.handshake@
    }

    pub closed spec fn sequence_spec(&self) -> u32 {
        self.sequence
    }

    pub closed spec fn last_received_spec(&self) -> Option<u32> {
        self.last_sequence_received
    }

    pub closed spec fn acknowledge_mask_spec(&self) -> AcknowledgeMask {
        self.acknowledge_mask
    }

    pub closed spec fn ntp_ids(&self) -> (u32, u32) {
        (self.ntp_id_client, self.ntp_id_server)
    }

    pub closed spec fn packet_spec(&self) -> PacketView {
        self.outgoing_packet@
    }

    pub closed spec fn last_activity_spec(&self) -> u64 {
        self.last_activity
    }

    pub closed spec fn ntp(&self) -> Option<NtpServer> {
        self.ntp_server
    }

    /// The datagrams queued for the server.
    pub closed spec fn sent(&self) -> Seq<Seq<u8>> {
        self.outgoing@.map_values(|bytes: Vec<u8>| bytes@)
    }

    /// The datagrams queued for the NTP socket.
    pub closed spec fn ntp_sent(&self) -> Seq<(SocketAddress, Seq<u8>)> {
        crate::network::server::server::datagrams(self.ntp_outgoing@)
    }

    pub closed spec fn wf(&self) -> bool {
        &&& self.receive_stream.wf()
        &&& self.send_stream@ == Seq::<u8>::empty()
        &&& self.handshake@.checksum == server_checksum()
        &&& sendable_version(self.handshake@.version)
        &&& self.ntp_server matches Some(ntp_server) ==> ntp_server.wf() && ntp_server.host() is Some
    }

    /// A client that has not talked to a server yet; the server will know it by a random NTP id. `now` is the monotonic
    /// time in microseconds.
    pub fn new(now: u64) -> (client: Self)
        ensures
            client.wf(),
            !client.initialized(),
            client.handshake_spec().ntp_id == client.ntp_ids().1,
            client.handshake_spec().sequences == (0u32, 0u32),
            client.ntp_ids().0 == 0,
            client.sequence_spec() == 0,
            client.last_received_spec() is None,
            client.last_activity_spec() == now,
            client.ntp() is None,
            client.packet_spec().sub_payloads == Seq::<SubPayload>::empty(),
            client.sent() == Seq::<Seq<u8>>::empty(),
            client.ntp_sent() == Seq::<(SocketAddress, Seq<u8>)>::empty(),
    {
        let ntp_id_server = random_u32();
        let client = Client {
            acknowledge_mask: AcknowledgeMask::default(),
            connection_initialized: false,
            handshake: Handshake {
                checksum: [0; 16],
                ntp_id: ntp_id_server,
                sequences: (0, 0),
                version: Version { branch: "master".to_owned(), major: 0, minor: 0, revision: 0 },
            },
            highest_acknowledge_received: None,
            last_activity: now,
            last_sequence_received: None,
            log: Log::default(),
            ntp_id_client: 0,
            ntp_id_server,
            ntp_server: None,
            outgoing_packet: Packet::new(0, 0),
            receive_stream: NetworkReadStream::new(),
            send_stream: NetworkWriteStream::new(),
            sequence: 0,
            outgoing: Vec::new(),
            ntp_outgoing: Vec::new(),
            lines: Vec::new(),
        };
        proof {
            reveal_strlit("master");
            assert(client.handshake@.checksum =~= server_checksum());
            assert(client.sent() =~= Seq::<Seq<u8>>::empty());
            assert(client.ntp_sent() =~= Seq::<(SocketAddress, Seq<u8>)>::empty());
        }
        client
    }

    /// Writes a log line.
    fn print(&mut self, log_level: LogLevel, message: &str, indent: u8)
        ensures
            final(self).acknowledge_mask == old(self).acknowledge_mask,
            final(self).connection_initialized == old(self).connection_initialized,
            final(self).handshake == old(self).handshake,
            final(self).highest_acknowledge_received == old(self).highest_acknowledge_received,
            final(self).last_activity == old(self).last_activity,
            final(self).last_sequence_received == old(self).last_sequence_received,
            final(self).ntp_id_client == old(self).ntp_id_client,
            final(self).ntp_id_server == old(self).ntp_id_server,
            final(self).ntp_server == old(self).ntp_server,
            final(self).outgoing_packet == old(self).outgoing_packet,
            final(self).receive_stream == old(self).receive_stream,
            final(self).send_stream == old(self).send_stream,
            final(self).sequence == old(self).sequence,
            final(self).outgoing == old(self).outgoing,
            final(self).ntp_outgoing == old(self).ntp_outgoing,
            final(self).log@ == old(self).log@.push(log_line(log_level, message@, indent as nat)),
            final(self).printed() == old(self).printed().push(log_line(log_level, message@, indent as nat)),
    {
        let line = self.log.record(log_level, message.to_owned(), indent);
        let ghost text = line@;
        self.lines.push(line);
        proof {
            assert(self.printed() =~= old(self).printed().push(text));
        }
    }

    /// Hands out the datagrams queued for the server.
    pub fn take_outgoing(&mut self) -> (queue: Vec<Vec<u8>>)
        ensures
            queue@.map_values(|bytes: Vec<u8>| bytes@) == old(self).sent(),
            final(self).sent() == Seq::<Seq<u8>>::empty(),
            final(self).ntp_sent() == old(self).ntp_sent(),
            final(self).initialized() == old(self).initialized(),
            final(self).handshake_spec() == old(self).handshake_spec(),
            final(self).sequence_spec() == old(self).sequence_spec(),
            final(self).last_received_spec() == old(self).last_received_spec(),
            final(self).ntp_ids() == old(self).ntp_ids(),
            final(self).packet_spec() == old(self).packet_spec(),
            final(self).ntp() == old(self).ntp(),
            old(self).wf() ==> final(self).wf(),
    {
        let mut queue = Vec::new();
        std::mem::swap(&mut queue, &mut self.outgoing);
        proof {
            assert(self.sent() =~= Seq::<Seq<u8>>::empty());
        }
        queue
    }

    /// Hands out the datagrams queued for the NTP socket.
    pub fn take_ntp_outgoing(&mut self) -> (queue: Vec<(SocketAddress, Vec<u8>)>)
        ensures
            crate::network::server::server::datagrams(queue@) == old(self).ntp_sent(),
            final(self).ntp_sent() == Seq::<(SocketAddress, Seq<u8>)>::empty(),
            final(self).sent() == old(self).sent(),
            final(self).initialized() == old(self).initialized(),
            final(self).handshake_spec() == old(self).handshake_spec(),
            final(self).sequence_spec() == old(self).sequence_spec(),
            final(self).last_received_spec() == old(self).last_received_spec(),
            final(self).ntp_ids() == old(self).ntp_ids(),
            final(self).packet_spec() == old(self).packet_spec(),
            final(self).ntp() == old(self).ntp(),
            old(self).wf() ==> final(self).wf(),
    {
        let mut queue = Vec::new();
        std::mem::swap(&mut queue, &mut self.ntp_outgoing);
        proof {
            assert(self.ntp_sent() =~= Seq::<(SocketAddress, Seq<u8>)>::empty());
        }
        queue
    }

    /// The log lines written since they were last taken.
    pub closed spec fn printed(&self) -> Seq<Seq<char>> {
        self.lines@.map_values(|line: String| line@)
    }

    /// Hands out the log lines written since the last call.
    pub fn take_lines(&mut self) -> (lines: Vec<String>)
        ensures
            final(self).sent() == old(self).sent(),
            final(self).ntp_sent() == old(self).ntp_sent(),
            final(self).initialized() == old(self).initialized(),
            final(self).handshake_spec() == old(self).handshake_spec(),
            final(self).sequence_spec() == old(self).sequence_spec(),
            final(self).last_received_spec() == old(self).last_received_spec(),
            final(self).ntp_ids() == old(self).ntp_ids(),
            final(self).packet_spec() == old(self).packet_spec(),
            final(self).ntp() == old(self).ntp(),
            old(self).wf() ==> final(self).wf(),
            lines@.map_values(|line: String| line@) == old(self).printed(),
            final(self).printed() == Seq::<Seq<char>>::empty(),
    {
        let mut lines = Vec::new();
        std::mem::swap(&mut lines, &mut self.lines);
        proof {
            assert(self.printed() =~= Seq::<Seq<char>>::empty());
        }
        lines
    }

    pub fn is_connection_valid(&self) -> (valid: bool)
        ensures
            valid == self.initialized(),
    {
        self.connection_initialized
    }

    /// Ping the server, if the connection is established; `time` is the wall-clock time in milliseconds.
    pub fn ping(&mut self, time: u64) -> (result: Result<(), ClientError>)
        requires
            old(self).wf(),
        ensures
            final(self).wf(),
            result is Ok,
            final(self).sent() == old(self).sent(),
            final(self).ntp_sent() == old(self).ntp_sent(),
            final(self).initialized() == old(self).initialized(),
            final(self).handshake_spec() == old(self).handshake_spec(),
            final(self).sequence_spec() == old(self).sequence_spec(),
            final(self).last_received_spec() == old(self).last_received_spec(),
            final(self).ntp_ids() == old(self).ntp_ids(),
            final(self).ntp() == old(self).ntp(),
            final(self).packet_spec() == if old(self).initialized() {
                extended(old(self).packet_spec(), seq![SubPayload::Ping(time)])
            } else {
                old(self).packet_spec()
            },
    {
        if !self.is_connection_valid() {
            return Ok(());
        }
        let ghost before = self.outgoing_packet@;
        self.outgoing_packet.add_sub_payload(SubPayload::Ping(time));
        proof {
            assert(self.outgoing_packet@.sub_payloads =~= before.sub_payloads + seq![SubPayload::Ping(time)]);
        }
        Ok(())
    }
}

impl Client {
    /// The client's NTP server, to hand it the datagrams that arrive on the NTP socket.
    pub fn ntp_server_mut(&mut self) -> (ntp_server: &mut Option<NtpServer>)
        ensures
            *ntp_server == old(self).ntp(),
            final(self).ntp() == *final(ntp_server),
            final(self).sent() == old(self).sent(),
            final(self).ntp_sent() == old(self).ntp_sent(),
            final(self).initialized() == old(self).initialized(),
            final(self).handshake_spec() == old(self).handshake_spec(),
            final(self).sequence_spec() == old(self).sequence_spec(),
            final(self).last_received_spec() == old(self).last_received_spec(),
            final(self).ntp_ids() == old(self).ntp_ids(),
            final(self).packet_spec() == old(self).packet_spec(),
            old(self).wf() && (*final(ntp_server) matches Some(server) ==> server.wf() && server.host() is Some)
                ==> final(self).wf(),
    {
        &mut self.ntp_server
    }

    /// Initializes a connection with the server at `peer`, from the socket bound to `local`: the handshake goes to the
    /// server, and the NTP server is set up on the port after `local`'s, talking to the port after `peer`'s.
    /// `precision` is how long reading the system time takes, in nanoseconds.
    pub fn initialize_connection(&mut self, local: SocketAddress, peer: SocketAddress, precision: u64) -> (result: Result<
        (),
        ClientError,
    >)
        requires
            old(self).wf(),
            local.port_spec() < u16::MAX,
            peer.port_spec() < u16::MAX,
        ensures
            final(self).wf(),
            result is Ok,
            final(self).sent() == old(self).sent().push(handshake_bytes(old(self).handshake_spec())),
            final(self).ntp() matches Some(ntp_server) && {
                &&& ntp_server.local_address() == local.with_port((local.port_spec() + 1) as u16)
                &&& ntp_server.host() == Some(peer.with_port((peer.port_spec() + 1) as u16))
                &&& ntp_server.precision_spec() == precision
                &&& ntp_server.whitelist() == Set::<u128>::empty()
                &&& ntp_server.indexes() == Map::<SocketAddress, u8>::empty()
            },
            final(self).ntp_sent() == old(self).ntp_sent(),
            final(self).initialized() == old(self).initialized(),
            final(self).handshake_spec() == old(self).handshake_spec(),
            final(self).sequence_spec() == old(self).sequence_spec(),
            final(self).last_received_spec() == old(self).last_received_spec(),
            final(self).ntp_ids() == old(self).ntp_ids(),
            final(self).packet_spec() == old(self).packet_spec(),
    {
        self.print(LogLevel::Info, "establishing connection", 0);
        let _ = self.send_stream.encode(&self.handshake);
        let bytes = match self.send_stream.export() {
            Ok(bytes) => bytes,
            Err(error) => return Err(ClientError::NetworkStreamError(error)),
        };
        let ghost queued = self.outgoing@;
        self.outgoing.push(bytes);
        proof {
            assert(self.sent() =~= queued.map_values(|bytes: Vec<u8>| bytes@).push(bytes@));
        }

        let mut bind_address = local;
        bind_address.set_port(local.port() + 1);
        let mut host_address = peer;
        host_address.set_port(peer.port() + 1);
        self.ntp_server = Some(NtpServer::new(bind_address, Some(host_address), precision));
        Ok(())
    }

    /// The first part of a tick: the packet we worked on constructing goes to the server, if it holds something and
    /// the connection is established, and a fresh packet takes its place.
    fn send_packet(&mut self) -> (result: Result<(), ClientError>)
        requires
            old(self).wf(),
        ensures
            result is Ok,
            client_sent(*old(self), *final(self)),
    {
        if self.outgoing_packet.get_sub_payloads().len() > 0 && self.is_connection_valid() {
            self.sequence = self.sequence.wrapping_add(1);
            let last_sequence = match self.last_sequence_received {
                Some(sequence) => sequence,
                None => 0,
            };
            self.outgoing_packet.prepare(self.acknowledge_mask, self.sequence, last_sequence);
            let _ = self.send_stream.encode(&self.outgoing_packet);
            let bytes = match self.send_stream.export() {
                Ok(bytes) => bytes,
                Err(error) => return Err(ClientError::NetworkStreamError(error)),
            };
            let ghost queued = self.outgoing@;
            self.outgoing.push(bytes);
            proof {
                assert(self.sent() =~= queued.map_values(|bytes: Vec<u8>| bytes@).push(bytes@));
            }
            self.outgoing_packet = Packet::new(self.sequence, last_sequence);
        }
        Ok(())
    }

    /// The last part of a tick: once the connection is established, the NTP server sends the host a time
    /// synchronization request stamped `ntp_time`.
    fn request_time(&mut self, ntp_time: i128) -> (result: Result<(), ClientError>)
        requires
            old(self).wf(),
        ensures
            result is Ok,
            client_requested(*old(self), *final(self)),
    {
        if self.is_connection_valid() {
            match &mut self.ntp_server {
                Some(ntp_server) => {
                    let ghost indexes = ntp_server.indexes();
                    let ghost host = ntp_server.host()->Some_0;
                    match ntp_server.sync_time(None, ntp_time) {
                        Ok((target, bytes)) => {
                            let ghost queued = self.ntp_outgoing@;
                            self.ntp_outgoing.push((target, bytes));
                            proof {
                                assert(bytes@ == ntp_request_bytes(request_index(indexes, host)));
                                assert(self.ntp_sent() =~= crate::network::server::server::datagrams(queued).push(
                                    (target, bytes@),
                                ));
                                assert(self.ntp_sent().drop_last() =~= old(self).ntp_sent());
                            }
                        },
                        Err(error) => return Err(ClientError::NtpError(error)),
                    }
                },
                None => {},
            }
        }
        Ok(())
    }
}

impl Client {
    /// Perform all network functions for this tick: send the packet we worked on constructing, receive `arrived`, the
    /// datagrams that came from the server, in order, then have the NTP server send its time request stamped
    /// `ntp_time`. `now` is the monotonic time in microseconds and `time` the wall-clock time in milliseconds that
    /// pongs carry. A fatal error met while receiving ends the tick and is returned; other errors are passed over.
    pub fn tick(&mut self, arrived: &Vec<Vec<u8>>, now: u64, time: u64, ntp_time: i128) -> (result: Result<
        (),
        ClientError,
    >)
        requires
            old(self).wf(),
            forall|sent: Client| #[trigger]
                client_sent(*old(self), sent) ==> client_hearable(sent, byte_strings(arrived@), now, time),
        ensures
            final(self).wf(),
            client_ticked(*old(self), *final(self), byte_strings(arrived@), now, time, result),
    {
        let _ = self.send_packet();
        let ghost sent = *self;
        let ghost all = byte_strings(arrived@);
        proof {
            assert(client_sent(*old(self), sent));
            assert(all.skip(0) =~= all);
            assert(all.take(0) =~= Seq::<Seq<u8>>::empty());
        }
        for i in 0..arrived.len()
            invariant
                self.wf(),
                all == byte_strings(arrived@),
                client_sent(*old(self), sent),
                client_heard(sent, *self, all.take(i as int), now, time),
                client_hearable(*self, all.skip(i as int), now, time),
        {
            let ghost before = *self;
            let bytes = &arrived[i];
            proof {
                assert(all.skip(i as int)[0] == all[i as int]);
                assert(bytes@.take(bytes@.len() as int) =~= bytes@);
            }
            let received_result = self.recv(bytes.as_slice(), bytes.len(), now, time);
            let fatal = match &received_result {
                Ok(()) => false,
                Err(error) => error.is_fatal(),
            };
            if fatal {
                proof {
                    assert(fatal_result(received_result));
                    assert(client_ticked(*old(self), *self, all, now, time, received_result));
                }
                return received_result;
            }
            proof {
                assert(!fatal_result(received_result));
                assert(all.skip(i as int).drop_first() =~= all.skip(i + 1));
                assert(all.take(i + 1).drop_last() =~= all.take(i as int));
                assert(all.take(i + 1).last() == all[i as int]);
                assert(client_heard(sent, *self, all.take(i + 1), now, time));
            }
        }
        proof {
            assert(all.take(all.len() as int) =~= all);
        }
        let ghost heard_all = *self;
        let _ = self.request_time(ntp_time);
        proof {
            assert(client_requested(heard_all, *self));
            assert(client_ticked(*old(self), *self, all, now, time, Ok(())));
        }
        Ok(())
    }
}

/// The byte strings that a sequence of byte vectors holds.
pub open spec fn byte_strings(vectors: Seq<Vec<u8>>) -> Seq<Seq<u8>> {
    vectors.map_values(|bytes: Vec<u8>| bytes@)
}

impl Client {
    /// Whether `recv` can finish on this datagram.
    pub fn can_receive(&self, receive_buffer: &[u8], read_bytes: usize) -> (result: bool)
        requires
            read_bytes <= receive_buffer@.len(),
        ensures
            result == client_receivable(*self, receive_buffer@.take(read_bytes as int)),
    {
        if read_bytes > MAX_PACKET_SIZE || !self.connection_initialized {
            return true;
        }
        let mut buffer: Vec<u8> = Vec::new();
        for i in 0..read_bytes
            invariant
                read_bytes <= receive_buffer@.len(),
                buffer@ == receive_buffer@.take(i as int),
        {
            buffer.push(receive_buffer[i]);
            proof {
                assert(receive_buffer@.take(i + 1) =~= receive_buffer@.take(i as int).push(receive_buffer@[i as int]));
            }
        }
        crate::network::payload::packet::can_decode(buffer.as_slice())
    }

    /// Receive a datagram of `read_bytes` bytes from the server, read into `receive_buffer`. Until the connection is
    /// established the server must answer with a compatible handshake, which sets our sequence numbers and NTP id;
    /// afterwards, the sub-payloads of the server's packets are acted on in order: a ping is answered with a pong
    /// stamped `time` (wall-clock milliseconds), and a disconnect ends the processing with an error. `now` is the
    /// monotonic time in microseconds, the new last activity.
    pub fn recv(&mut self, receive_buffer: &[u8], read_bytes: usize, now: u64, time: u64) -> (result: Result<
        (),
        ClientError,
    >)
        requires
            old(self).wf(),
            read_bytes <= receive_buffer@.len(),
            client_receivable(*old(self), receive_buffer@.take(read_bytes as int)),
        ensures
            final(self).wf(),
            client_received(*old(self), *final(self), receive_buffer@.take(read_bytes as int), now, time, result),
    {
        // make sure what we just read is not too big to be an eggine packet
        if read_bytes > MAX_PACKET_SIZE {
            self.print(LogLevel::Error, "received too big of a packet", 0);
            return Err(ClientError::PacketTooBig);
        }

        self.last_activity = now;

        // import raw bytes into the receive stream
        let mut buffer: Vec<u8> = Vec::new();
        for i in 0..read_bytes
            invariant
                read_bytes <= receive_buffer@.len(),
                buffer@ == receive_buffer@.take(i as int),
        {
            buffer.push(receive_buffer[i]);
            proof {
                assert(receive_buffer@.take(i + 1) =~= receive_buffer@.take(i as int).push(receive_buffer@[i as int]));
            }
        }
        let ghost bytes = buffer@;
        let _ = self.receive_stream.import(buffer);
        proof {
            assert(self.receive_stream.remaining() =~= bytes);
        }

        // if the connection has not been initialized yet, we need to check if the server sent us back a handshake
        if !self.connection_initialized {
            let handshake = match self.receive_stream.decode::<Handshake>() {
                Ok((handshake, _)) => handshake,
                Err(error) => return Err(ClientError::NetworkStreamError(error)),
            };
            if !self.handshake.is_compatible(&handshake) {
                self.print(LogLevel::Error, "invalid handshake", 1);
                return Err(ClientError::Handshake);
            }

            // set our sequence numbers
            self.last_sequence_received = Some(handshake.sequences.0);
            self.sequence = handshake.sequences.1;
            self.ntp_id_client = handshake.ntp_id;

            self.print(LogLevel::Info, "connection established", 0);
            self.connection_initialized = true;
            return Ok(());
        }

        // figure out what to do with the packet we just got
        let packet = match self.receive_stream.decode::<Packet>() {
            Ok((packet, _)) => packet,
            Err(error) => return Err(ClientError::NetworkStreamError(error)),
        };
        let sub_payloads = packet.get_sub_payloads();
        let ghost listed = sub_payloads@;
        let ghost base = self.outgoing_packet@;
        let mut i: usize = 0;
        proof {
            assert(listed.take(0) =~= Seq::<SubPayload>::empty());
            assert(base.sub_payloads + pongs(listed.take(0), time) =~= base.sub_payloads);
        }
        while i < sub_payloads.len()
            invariant
                self.wf(),
                bytes == receive_buffer@.take(read_bytes as int),
                read_bytes <= MAX_PACKET_SIZE,
                read_bytes <= receive_buffer@.len(),
                listed == sub_payloads@,
                packet_parse(bytes) matches Ok((view, _)) && view == packet@,
                listed == packet@.sub_payloads,
                i <= listed.len(),
                old(self).initialized(),
                self.initialized(),
                self.last_activity == now,
                self.handshake == old(self).handshake,
                self.sequence == old(self).sequence,
                self.last_sequence_received == old(self).last_sequence_received,
                self.ntp_id_client == old(self).ntp_id_client,
                self.ntp_id_server == old(self).ntp_id_server,
                self.ntp_server == old(self).ntp_server,
                self.outgoing == old(self).outgoing,
                self.ntp_outgoing == old(self).ntp_outgoing,
                self.acknowledge_mask == old(self).acknowledge_mask,
                base == old(self).outgoing_packet@,
                self.outgoing_packet@ == extended(base, pongs(listed.take(i as int), time)),
                forall|j: int| 0 <= j < i ==> !(#[trigger] listed[j] is Disconnect),
            decreases listed.len() - i,
        {
            proof {
                assert(listed.take(i + 1).drop_last() =~= listed.take(i as int));
            }
            match sub_payloads[i] {
                SubPayload::Disconnect(reason) => {
                    self.print(LogLevel::Info, "server told us to disconnect", 0);
                    proof {
                        lemma_first_disconnect(listed, i as int);
                        assert(listed[i as int] == SubPayload::Disconnect(reason));
                        let parsed = packet_parse(bytes)->Ok_0.0;
                        assert(parsed.sub_payloads == listed);
                        assert(first_disconnect(parsed.sub_payloads) == i);
                    }
                    return Err(ClientError::Disconnected(reason));
                },
                SubPayload::Ping(_) => {
                    self.print(LogLevel::Info, "got ping", 0);

                    // send a pong to the server
                    let ghost before = self.outgoing_packet@;
                    self.outgoing_packet.add_sub_payload(SubPayload::Pong(time));
                    proof {
                        assert(self.outgoing_packet@.sub_payloads =~= base.sub_payloads + pongs(
                            listed.take(i + 1),
                            time,
                        ));
                    }
                },
                SubPayload::Pong(_) => {
                    self.print(LogLevel::Info, "got pong", 0);
                    proof {
                        assert(pongs(listed.take(i + 1), time) =~= pongs(listed.take(i as int), time));
                    }
                },
            }
            i = i + 1;
        }
        proof {
            lemma_first_disconnect(listed, i as int);
            assert(listed.take(i as int) =~= listed);
        }
        Ok(())
    }
}

/// What the sending part of a tick makes of a client: the pending packet goes to the server, if it holds something and
/// the connection is established, and a fresh packet takes its place; nothing else changes.
pub open spec fn client_sent(before: Client, after: Client) -> bool {
    &&& after.wf()
    &&& after.ntp_sent() == before.ntp_sent()
    &&& after.initialized() == before.initialized()
    &&& after.handshake_spec() == before.handshake_spec()
    &&& after.last_received_spec() == before.last_received_spec()
    &&& after.ntp_ids() == before.ntp_ids()
    &&& after.ntp() == before.ntp()
    &&& after.last_activity_spec() == before.last_activity_spec()
    &&& if before.packet_spec().sub_payloads.len() > 0 && before.initialized() {
        let sequence = next_sequence(before.sequence_spec());
        let last = match before.last_received_spec() {
            Some(received) => received,
            None => 0,
        };
        &&& after.sequence_spec() == sequence
        &&& after.sent() == before.sent().push(
            packet_bytes(
                PacketView {
                    acknowledge_mask: seq![
                        before.acknowledge_mask_spec().words().0,
                        before.acknowledge_mask_spec().words().1,
                    ],
                    extensions: before.packet_spec().extensions,
                    sub_payloads: before.packet_spec().sub_payloads,
                    highest_acknowledged_sequence: last,
                    sequence_number: sequence,
                },
            ),
        )
        &&& after.packet_spec().sub_payloads == Seq::<SubPayload>::empty()
        &&& after.packet_spec().sequence_number == sequence
        &&& after.packet_spec().highest_acknowledged_sequence == last
    } else {
        &&& after.sequence_spec() == before.sequence_spec()
        &&& after.sent() == before.sent()
        &&& after.packet_spec() == before.packet_spec()
    }
}

/// What the last part of a tick makes of a client: once the connection is established, its NTP server sends the host
/// a time synchronization request; nothing else changes.
pub open spec fn client_requested(before: Client, after: Client) -> bool {
    &&& after.wf()
    &&& after.sent() == before.sent()
    &&& after.initialized() == before.initialized()
    &&& after.handshake_spec() == before.handshake_spec()
    &&& after.sequence_spec() == before.sequence_spec()
    &&& after.last_received_spec() == before.last_received_spec()
    &&& after.ntp_ids() == before.ntp_ids()
    &&& after.packet_spec() == before.packet_spec()
    &&& after.last_activity_spec() == before.last_activity_spec()
    &&& if before.initialized() && before.ntp() is Some {
        let host = before.ntp()->Some_0.host()->Some_0;
        &&& after.ntp_sent().len() == before.ntp_sent().len() + 1
        &&& after.ntp_sent().drop_last() == before.ntp_sent()
        &&& after.ntp_sent().last() == (host, ntp_request_bytes(request_index(before.ntp()->Some_0.indexes(), host)))
        &&& after.ntp() is Some
        &&& after.ntp()->Some_0.indexes() == before.ntp()->Some_0.indexes().insert(
            host,
            request_index(before.ntp()->Some_0.indexes(), host),
        )
    } else {
        after.ntp_sent() == before.ntp_sent() && after.ntp() == before.ntp()
    }
}

/// Whether an error makes the client need a restart.
pub open spec fn fatal_error(error: ClientError) -> bool {
    match error {
        ClientError::ConnectionRefused => true,
        ClientError::Disconnected(_) => true,
        ClientError::Handshake => true,
        ClientError::NetworkStreamError(_) => false,
        ClientError::NtpError(error) => error is Create || error is Receive || error is Send
            || error matches NtpServerError::MpscError(crate::network::ntp::server::ChannelError::Disconnected),
        ClientError::PacketTooBig => false,
        ClientError::Socket(_) => true,
        ClientError::WouldBlock => false,
    }
}

/// Whether a result is an error that makes the client need a restart.
pub open spec fn fatal_result(result: Result<(), ClientError>) -> bool {
    result matches Err(error) && fatal_error(error)
}

/// Whether receiving `datagrams` one after another, starting from `client`, never meets a datagram that cannot be
/// handled before a fatal error ends the receiving, whatever each earlier datagram made of the client.
pub open spec fn client_hearable(client: Client, datagrams: Seq<Seq<u8>>, now: u64, time: u64) -> bool
    decreases datagrams.len(),
{
    datagrams.len() == 0 || (client_receivable(client, datagrams[0]) && forall|
        after: Client,
        result: Result<(), ClientError>,
    |
        #[trigger] client_received(client, after, datagrams[0], now, time, result) && after.wf() && !fatal_result(
            result,
        ) ==> client_hearable(after, datagrams.drop_first(), now, time))
}

/// Whether `after` is what receiving `datagrams` one after another makes of `before`, none of them meeting a fatal
/// error.
pub open spec fn client_heard(before: Client, after: Client, datagrams: Seq<Seq<u8>>, now: u64, time: u64) -> bool
    decreases datagrams.len(),
{
    if datagrams.len() == 0 {
        after == before
    } else {
        exists|middle: Client, result: Result<(), ClientError>|
            client_heard(before, middle, datagrams.drop_last(), now, time) && middle.wf() && #[trigger] client_received(
                middle,
                after,
                datagrams.last(),
                now,
                time,
                result,
            ) && !fatal_result(result)
    }
}

/// What a whole tick makes of a client: the pending packet is sent, then the datagrams are received until one meets
/// a fatal error, which ends the tick with that error; when none does, the NTP server sends its time request.
pub open spec fn client_ticked(
    before: Client,
    after: Client,
    datagrams: Seq<Seq<u8>>,
    now: u64,
    time: u64,
    result: Result<(), ClientError>,
) -> bool {
    exists|sent: Client, middle: Client, count: int|
        client_sent(before, sent) && 0 <= count <= datagrams.len() && #[trigger] client_heard(
            sent,
            middle,
            datagrams.take(count),
            now,
            time,
        ) && if count == datagrams.len() {
            result is Ok && client_requested(middle, after)
        } else {
            fatal_result(result) && client_received(middle, after, datagrams[count], now, time, result)
        }
}

/// Whether receiving `bytes` runs to a result: once the connection is established, a packet must not hold a reserved
/// sub-payload type.
pub open spec fn client_receivable(client: Client, bytes: Seq<u8>) -> bool {
    client.initialized() && bytes.len() <= MAX_PACKET_SIZE ==> Packet::decodable(bytes)
}

/// What receiving `bytes` from the server does.
pub open spec fn client_received(
    before: Client,
    after: Client,
    bytes: Seq<u8>,
    now: u64,
    time: u64,
    result: Result<(), ClientError>,
) -> bool {
    &&& after.sent() == before.sent()
    &&& after.ntp_sent() == before.ntp_sent()
    &&& after.handshake_spec() == before.handshake_spec()
    &&& after.ntp() == before.ntp()
    &&& if bytes.len() > MAX_PACKET_SIZE {
        &&& result matches Err(ClientError::PacketTooBig)
        &&& after.last_activity_spec() == before.last_activity_spec()
        &&& after.initialized() == before.initialized()
        &&& after.sequence_spec() == before.sequence_spec()
        &&& after.last_received_spec() == before.last_received_spec()
        &&& after.ntp_ids() == before.ntp_ids()
        &&& after.packet_spec() == before.packet_spec()
    } else if !before.initialized() {
        &&& after.last_activity_spec() == now
        &&& after.packet_spec() == before.packet_spec()
        &&& match handshake_parse(bytes) {
            Ok((theirs, _)) if theirs.checksum == before.handshake_spec().checksum => {
                &&& result is Ok
                &&& after.initialized()
                &&& after.last_received_spec() == Some(theirs.sequences.0)
                &&& after.sequence_spec() == theirs.sequences.1
                &&& after.ntp_ids() == (theirs.ntp_id, before.ntp_ids().1)
            },
            _ => {
                &&& match handshake_parse(bytes) {
                    Err(error) => result matches Err(ClientError::NetworkStreamError(emitted)) && emitted == error,
                    Ok(_) => result matches Err(ClientError::Handshake),
                }
                &&& after.initialized() == before.initialized()
                &&& after.sequence_spec() == before.sequence_spec()
                &&& after.last_received_spec() == before.last_received_spec()
                &&& after.ntp_ids() == before.ntp_ids()
            },
        }
    } else {
        &&& after.last_activity_spec() == now
        &&& after.initialized() == before.initialized()
        &&& after.sequence_spec() == before.sequence_spec()
        &&& after.last_received_spec() == before.last_received_spec()
        &&& after.ntp_ids() == before.ntp_ids()
        &&& match packet_parse(bytes) {
            Err(error) => result matches Err(ClientError::NetworkStreamError(emitted)) && emitted == error
                && after.packet_spec() == before.packet_spec(),
            Ok((packet, _)) => {
                let cut = first_disconnect(packet.sub_payloads);
                &&& after.packet_spec() == extended(before.packet_spec(), pongs(packet.sub_payloads.take(cut), time))
                &&& if cut < packet.sub_payloads.len() {
                    result matches Err(ClientError::Disconnected(reason)) && packet.sub_payloads[cut]
                        == SubPayload::Disconnect(reason)
                } else {
                    result is Ok
                }
            },
        }
    }
}

/// A server takes in a client of this library: the handshake that the client sends when it starts its connection,
/// received from a new IPv6 address that is not blacklisted, adds a client connection for that address, made at `now`.
pub proof fn server_accepts_client_handshake(
    client: Client,
    before: Server,
    after: Server,
    ip: u128,
    port: u16,
    now: u64,
    time: u64,
    result: Result<(), ServerError>,
)
    requires
        client.wf(),
        before.wf(),
        !before.blacklist().contains(ip),
        !before.clients().dom().contains(SocketAddress::V6(ip, port)),
        received(before, after, SocketAddress::V6(ip, port), handshake_bytes(client.handshake_spec()), now, time, result),
    ensures
        result is Ok,
        after.clients().dom().contains(SocketAddress::V6(ip, port)),
        after.clients() == before.clients().insert(
            SocketAddress::V6(ip, port),
            after.clients()[SocketAddress::V6(ip, port)],
        ),
        new_client(
            after.clients()[SocketAddress::V6(ip, port)],
            SocketAddress::V6(ip, port),
            now,
            after.clients()[SocketAddress::V6(ip, port)].ntp_id_client,
        ),
{
    let handshake = client.handshake_spec();
    let bytes = handshake_bytes(handshake);
    before.lemma_wf_checksum();
    handshake_roundtrip(handshake, Seq::empty());
    assert(bytes + Seq::<u8>::empty() =~= bytes);
    lemma_handshake_bytes_len(handshake);
    assert(bytes.len() <= MAX_PACKET_SIZE);
}

/// A client that has not connected yet connects with a server's answer to its handshake: it then expects the server's
/// first sequence number, sends from the server's second one on, and knows the server's NTP id.
pub proof fn client_accepts_server_answer(
    before: Client,
    after: Client,
    server: Server,
    now: u64,
    time: u64,
    result: Result<(), ClientError>,
)
    requires
        before.wf(),
        !before.initialized(),
        server.wf(),
        client_received(before, after, handshake_bytes(server.handshake_spec()), now, time, result),
    ensures
        result is Ok,
        after.initialized(),
        after.last_received_spec() == Some(server.handshake_spec().sequences.0),
        after.sequence_spec() == server.handshake_spec().sequences.1,
        after.ntp_ids().0 == server.handshake_spec().ntp_id,
{
    let handshake = server.handshake_spec();
    server.lemma_wf_checksum();
    handshake_roundtrip(handshake, Seq::empty());
    assert(handshake_bytes(handshake) + Seq::<u8>::empty() =~= handshake_bytes(handshake));
    lemma_handshake_bytes_len(handshake);
}

} // verus!
