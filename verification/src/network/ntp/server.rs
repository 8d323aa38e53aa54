use vstd::prelude::*;

use crate::carton::stream::le_bytes;
use crate::carton::stream::writing::{write_u64, write_u8};
use crate::network::address::{RequestKey, SocketAddress};
use crate::network::error::NetworkError;
use crate::network::network_stream::{lemma_advance, NetworkReadStream, NetworkWriteStream, StreamDecode};
use crate::network::payload::ntp_packet::{
    high_word, low_word, ntp_header_bytes, ntp_header_parse, ntp_magic_chars, ntp_response_parse, NtpPacketHeader,
    NtpRequestPacket, NtpResponsePacket,
};
use crate::network::payload::ntp_packet::join_words;
use crate::network::payload::payload::lemma_integer_parse_bytes;
use crate::table::Table;

use super::times::Times;
use super::times_shift_register::{added, best_of, TimesShiftRegister};

verus! {

/// The largest NTP packet the server accepts, in bytes.
pub const MAX_NTP_PACKET_SIZE: usize = 57;

/// How many timing measurements the server keeps for each peer.
pub const SHIFT_REGISTER_SIZE: usize = 300;

/// Why receiving from the channel that the socket task fills gave nothing.
#[derive(Clone, Copy, Debug, PartialEq, Eq, Structural)]
pub enum ChannelError {
    /// Nothing is waiting right now.
    Empty,
    /// The sending side is gone.
    Disconnected,
}

#[derive(Debug)]
pub enum NtpServerError {
    /// Emitted if we encountered a problem creating + binding the socket. Fatal.
    Create(std::io::Error),
    /// Emitted if we could not convert a `SourceAddr` into an `Ipv6Addr` during a receive call. Non-fatal.
    InvalidIP,
    /// Emitted if the client did not send us the expected magic number.
    InvalidMagicNumber(SocketAddress),
    /// Emitted if the client sent us a packet type that we do not recognize
    InvalidPacketType(SocketAddress),
    /// Emitted if we encountered a problem with the channel that the socket task fills.
    MpscError(ChannelError),
    /// Emitted if we encountered a problem with network streams.
    NetworkStreamError(NetworkError),
    /// Emitted if we receive data from a non-whitelisted IP. Non-fatal.
    NotWhitelisted(SocketAddress),
    /// Emitted if a received packet is too big to be an eggine packet. Non-fatal.
    PacketTooBig(SocketAddress),
    /// Emitted if we encountered an OS socket error during a receive. Fatal.
    Receive(std::io::Error),
    /// Emitted if we encountered an OS socket error during a send. Fatal.
    Send(std::io::Error),
}

impl NtpServerError {
    /// Identifies whether or not the server needs a restart upon the emission of an error.
    pub fn is_fatal(&self) -> (fatal: bool)
        ensures
            fatal == (self is Create || self is Receive || self is Send || self matches NtpServerError::MpscError(
                ChannelError::Disconnected,
            )),
    {
        match self {
            NtpServerError::Create(_) => true,
            NtpServerError::InvalidIP => false,
            NtpServerError::InvalidPacketType(_) => false,
            NtpServerError::InvalidMagicNumber(_) => false,
            NtpServerError::MpscError(error) => {
                match error {
                    ChannelError::Disconnected => true,
                    ChannelError::Empty => false,
                }
            },
            NtpServerError::NetworkStreamError(_) => false,
            NtpServerError::NotWhitelisted(_) => false,
            NtpServerError::PacketTooBig(_) => false,
            NtpServerError::Receive(_) => true,
            NtpServerError::Send(_) => true,
        }
    }
}

/// A NTP packet that passed the server's checks.
pub enum NtpMessage {
    Request(NtpRequestPacket),
    Response(NtpResponsePacket),
}

/// What the server does with a received NTP packet: check the sender's address, the packet size, the header's magic
/// number and packet type, and decode the request or response that follows the header.
pub open spec fn classify_message(whitelist: Set<u128>, source: SocketAddress, bytes: Seq<u8>) -> Result<
    NtpMessage,
    NtpServerError,
> {
    match source {
        SocketAddress::V4(_, _) => Err(NtpServerError::InvalidIP),
        SocketAddress::V6(ip, _) => if !whitelist.contains(ip) {
            Err(NtpServerError::NotWhitelisted(source))
        } else if bytes.len() > MAX_NTP_PACKET_SIZE {
            Err(NtpServerError::PacketTooBig(source))
        } else {
            match ntp_header_parse(bytes) {
                Err(error) => Err(NtpServerError::NetworkStreamError(error)),
                Ok(((magic_number, packet_type), length)) => if magic_number != ntp_magic_chars() {
                    Err(NtpServerError::InvalidMagicNumber(source))
                } else if packet_type == 0 {
                    match NtpRequestPacket::parse(bytes.skip(length as int)) {
                        Err(error) => Err(NtpServerError::NetworkStreamError(error)),
                        Ok((request, _)) => Ok(NtpMessage::Request(request)),
                    }
                } else if packet_type == 1 {
                    match ntp_response_parse(bytes.skip(length as int)) {
                        Err(error) => Err(NtpServerError::NetworkStreamError(error)),
                        Ok((response, _)) => Ok(NtpMessage::Response(response)),
                    }
                } else {
                    Err(NtpServerError::InvalidPacketType(source))
                },
            }
        },
    }
}

/// Whether a packet gets as far as announcing a response: its sender is a whitelisted IPv6 address, it is small
/// enough, and its header holds the magic number and the response packet type.
pub open spec fn announces_response(whitelist: Set<u128>, source: SocketAddress, bytes: Seq<u8>) -> bool {
    &&& source matches SocketAddress::V6(ip, _) && whitelist.contains(ip)
    &&& bytes.len() <= MAX_NTP_PACKET_SIZE
    &&& ntp_header_parse(bytes) matches Ok(((magic_number, packet_type), _)) && magic_number == ntp_magic_chars()
        && packet_type == 1
}

/// Whether `after` is `before` with a register kept for `source`: an empty one, made with `precision`, where there was
/// none; the other registers are as they were.
pub open spec fn register_opened(
    before: Map<SocketAddress, TimesShiftRegister>,
    after: Map<SocketAddress, TimesShiftRegister>,
    source: SocketAddress,
    precision: u64,
) -> bool {
    if before.dom().contains(source) {
        after == before
    } else {
        &&& after.dom() == before.dom().insert(source)
        &&& forall|other: SocketAddress|
            other != source && #[trigger] before.dom().contains(other) ==> after[other] == before[other]
        &&& after[source].wf()
        &&& after[source].entries() == Seq::<Times>::empty()
        &&& after[source].last_best_spec() is None
        &&& after[source].precision_spec() == precision
        &&& after[source].max_amount_spec() == SHIFT_REGISTER_SIZE
    }
}

/// The magic number's bytes.
pub open spec fn ntp_magic_bytes() -> Seq<u8> {
    seq![69u8, 71u8, 71u8, 73u8, 78u8, 69u8, 78u8, 84u8, 80u8]
}

/// The bytes of the server's answer to a time request: a response header, the request's index, the receive time, the
/// server's precision and the send time, each time as its low then its high 64 bits.
pub open spec fn ntp_response_bytes(index: u8, receive_time: i128, precision: u64, send_time: i128) -> Seq<u8> {
    seq![9u8, 0u8] + ntp_magic_bytes() + seq![1u8, index] + le_bytes(low_word(receive_time) as nat, 8) + le_bytes(
        high_word(receive_time) as nat,
        8,
    ) + le_bytes(precision as nat, 8) + le_bytes(low_word(send_time) as nat, 8) + le_bytes(
        high_word(send_time) as nat,
        8,
    )
}

/// The bytes of a time request: a request header, then the request's index.
pub open spec fn ntp_request_bytes(index: u8) -> Seq<u8> {
    ntp_header_bytes(ntp_magic_chars(), 0) + seq![index]
}

/// The next packet index after `index`, wrapping around.
pub open spec fn next_index(index: u8) -> u8 {
    if index == 255 {
        0
    } else {
        (index + 1) as u8
    }
}

/// The NTP magic number as a string.
pub fn ntp_magic_number() -> (magic_number: String)
    ensures
        magic_number@ == ntp_magic_chars(),
{
    let mut magic_number = String::new();
    crate::carton::stream::string_push(&mut magic_number, 'E');
    crate::carton::stream::string_push(&mut magic_number, 'G');
    crate::carton::stream::string_push(&mut magic_number, 'G');
    crate::carton::stream::string_push(&mut magic_number, 'I');
    crate::carton::stream::string_push(&mut magic_number, 'N');
    crate::carton::stream::string_push(&mut magic_number, 'E');
    crate::carton::stream::string_push(&mut magic_number, 'N');
    crate::carton::stream::string_push(&mut magic_number, 'T');
    crate::carton::stream::string_push(&mut magic_number, 'P');
    proof {
        assert(magic_number@ =~= ntp_magic_chars());
    }
    magic_number
}

/// Builds the server's answer to the time request with index `index`: the response header, the index, the time the
/// request was received, the server's precision and the time of sending.
pub fn ntp_response(index: u8, receive_time: i128, precision: u64, send_time: i128) -> (buffer: Vec<u8>)
    ensures
        buffer@ == ntp_response_bytes(index, receive_time, precision, send_time),
{
    let mut buffer: Vec<u8> = Vec::new();

    // write the NTP packet header
    write_u8(9, &mut buffer);
    write_u8(0, &mut buffer);
    write_u8('E' as u8, &mut buffer);
    write_u8('G' as u8, &mut buffer);
    write_u8('G' as u8, &mut buffer);
    write_u8('I' as u8, &mut buffer);
    write_u8('N' as u8, &mut buffer);
    write_u8('E' as u8, &mut buffer);
    write_u8('N' as u8, &mut buffer);
    write_u8('T' as u8, &mut buffer);
    write_u8('P' as u8, &mut buffer);
    write_u8(1, &mut buffer);

    write_u8(index, &mut buffer);

    // we need to send the times as quick as possible since the longer we take, the more inaccurate the `send_time`
    // is going to be. sends two 128 bit integers for receive time and send time.
    proof {
        assert((receive_time as u64) == (receive_time as u128) as u64) by (bit_vector);
        assert(((receive_time >> 64u32) as u64) == ((receive_time as u128) >> 64u128) as u64) by (bit_vector);
        assert((send_time as u64) == (send_time as u128) as u64) by (bit_vector);
        assert(((send_time >> 64u32) as u64) == ((send_time as u128) >> 64u128) as u64) by (bit_vector);
    }
    write_u64(receive_time as u64, &mut buffer);
    write_u64((receive_time >> 64u32) as u64, &mut buffer);

    // send precision
    write_u64(precision, &mut buffer);

    // send time encoding
    write_u64(send_time as u64, &mut buffer);
    write_u64((send_time >> 64u32) as u64, &mut buffer);
    proof {
        assert(buffer@ =~= ntp_response_bytes(index, receive_time, precision, send_time));
    }
    buffer
}

/// What the caller has to do after the server processed a packet.
#[derive(Debug)]
pub enum NtpReply {
    /// Send these bytes to this address.
    Respond(SocketAddress, Vec<u8>),
    /// A timing measurement from this address was recorded.
    Recorded(SocketAddress),
}

/// The decision logic of a NTP server: which peers may talk to it, which requests it sent and when, and the timing
/// measurements it collected per peer. The caller owns the socket, reads the clock, and sends what the server hands
/// out.
#[derive(Debug)]
pub struct NtpServer {
    /// The address the server is bound to
    address: SocketAddress,
    /// The IPV6 addresses that are allowed to communicate with the NTP server.
    pub address_whitelist: Vec<u128>,
    host_address: Option<SocketAddress>,
    packet_indexes: Table<SocketAddress, u8>,
    /// Amount of time it takes to read system time, in nanoseconds.
    precision: u64,
    /// The stream we use to export data so we can sent it to a client.
    send_stream: NetworkWriteStream,
    /// The time we sent each request, by address and packet index.
    send_times: Table<RequestKey, i128>,
    /// Used for determining the best system time correction.
    shift_register: Table<SocketAddress, TimesShiftRegister>,
}

impl NtpServer {
    pub closed spec fn whitelist(&self) -> Set<u128> {
        self.address_whitelist@.to_set()
    }

    pub closed spec fn host(&self) -> Option<SocketAddress> {
        self.host_address
    }

    pub closed spec fn local_address(&self) -> SocketAddress {
        self.address
    }

    pub closed spec fn precision_spec(&self) -> u64 {
        self.precision
    }

    /// The last packet index sent to each address.
    pub closed spec fn indexes(&self) -> Map<SocketAddress, u8> {
        self.packet_indexes.map()
    }

    /// When each request was sent.
    pub closed spec fn sent(&self) -> Map<RequestKey, i128> {
        self.send_times.map()
    }

    /// The timing measurements of each peer.
    pub closed spec fn registers(&self) -> Map<SocketAddress, TimesShiftRegister> {
        self.shift_register.map()
    }

    pub closed spec fn wf(&self) -> bool {
        &&& self.packet_indexes.wf()
        &&& self.send_times.wf()
        &&& self.shift_register.wf()
        &&& forall|a: SocketAddress| #[trigger]
            self.shift_register.map().dom().contains(a) ==> self.shift_register.map()[a].wf()
    }

    /// The timing measurements collected from a peer, if it answered a request.
    pub fn get_shift_register(&self, address: SocketAddress) -> (register: Option<&TimesShiftRegister>)
        requires
            self.wf(),
        ensures
            register matches Some(found) ==> self.registers().dom().contains(address) && self.registers()[address]
                == *found && found.wf(),
            register is None ==> !self.registers().dom().contains(address),
    {
        self.shift_register.get(&address)
    }

    /// A server bound to `address`, talking to `host_address` when a request names no address. `precision` is how
    /// long reading the system time takes, in nanoseconds.
    pub fn new(address: SocketAddress, host_address: Option<SocketAddress>, precision: u64) -> (server: Self)
        ensures
            server.wf(),
            server.whitelist() == Set::<u128>::empty(),
            server.host() == host_address,
            server.local_address() == address,
            server.precision_spec() == precision,
            server.indexes() == Map::<SocketAddress, u8>::empty(),
            server.sent() == Map::<RequestKey, i128>::empty(),
            server.registers() == Map::<SocketAddress, TimesShiftRegister>::empty(),
    {
        let server = NtpServer {
            address,
            address_whitelist: Vec::new(),
            host_address,
            packet_indexes: Table::new(),
            precision,
            send_stream: NetworkWriteStream::new(),
            send_times: Table::new(),
            shift_register: Table::new(),
        };
        proof {
            assert(server.whitelist() =~= Set::<u128>::empty());
        }
        server
    }

    /// Lets an IPv6 address talk to the server.
    pub fn add_to_whitelist(&mut self, ip: u128)
        requires
            old(self).wf(),
        ensures
            final(self).wf(),
            final(self).whitelist() == old(self).whitelist().insert(ip),
            final(self).indexes() == old(self).indexes(),
            final(self).sent() == old(self).sent(),
            final(self).registers() == old(self).registers(),
            final(self).precision_spec() == old(self).precision_spec(),
            final(self).host() == old(self).host(),
    {
        let ghost before = self.address_whitelist@;
        self.address_whitelist.push(ip);
        proof {
            let after = self.address_whitelist@;
            assert forall|x: u128| after.contains(x) <==> (before.contains(x) || x == ip) by {
                if after.contains(x) {
                    let i = choose|i: int| 0 <= i < after.len() && after[i] == x;
                    if i < before.len() {
                        assert(before[i] == x);
                    }
                }
                if before.contains(x) {
                    let i = choose|i: int| 0 <= i < before.len() && before[i] == x;
                    assert(after[i] == x);
                }
                if x == ip {
                    assert(after[before.len() as int] == ip);
                }
            }
            assert(self.whitelist() =~= old(self).whitelist().insert(ip));
        }
    }

    /// Whether an IPv6 address may talk to the server.
    pub fn is_whitelisted(&self, ip: u128) -> (result: bool)
        ensures
            result == self.whitelist().contains(ip),
    {
        for i in 0..self.address_whitelist.len()
            invariant
                forall|j: int| 0 <= j < i ==> self.address_whitelist@[j] != ip,
        {
            if self.address_whitelist[i] == ip {
                proof {
                    assert(self.address_whitelist@.contains(ip));
                }
                return true;
            }
        }
        false
    }

    /// Prepares a time synchronization request for `address`, or for the host when no address is given: the next
    /// packet index for that address goes out in a request, and `time` is recorded as the request's send time. Hands
    /// out the address and the bytes to send.
    pub fn sync_time(&mut self, address: Option<SocketAddress>, time: i128) -> (result: Result<
        (SocketAddress, Vec<u8>),
        NtpServerError,
    >)
        requires
            old(self).wf(),
            address.is_some() || old(self).host().is_some(),
        ensures
            final(self).wf(),
            result matches Ok((target, bytes)) && {
                let index = next_index(
                    if old(self).indexes().dom().contains(target) {
                        old(self).indexes()[target]
                    } else {
                        0
                    },
                );
                &&& target == (if address.is_some() {
                    address.unwrap()
                } else {
                    old(self).host().unwrap()
                })
                &&& bytes@ == ntp_request_bytes(index)
                &&& final(self).indexes() == old(self).indexes().insert(target, index)
                &&& final(self).sent() == old(self).sent().insert(RequestKey { address: target, index }, time)
            },
            final(self).registers() == old(self).registers(),
            final(self).whitelist() == old(self).whitelist(),
            final(self).precision_spec() == old(self).precision_spec(),
            final(self).host() == old(self).host(),
    {
        // determine the address
        let address = match address {
            Some(address) => address,
            None => self.host_address.unwrap(),
        };

        if !self.packet_indexes.contains_key(&address) {
            self.packet_indexes.insert(address, 0);
        }
        let ghost indexes_with_address = self.packet_indexes.map();

        // encode packet header
        let header = NtpPacketHeader { magic_number: ntp_magic_number(), packet_type: 0 };

        let mut send_stream = NetworkWriteStream::new();
        let _ = send_stream.encode(&header);

        // encode request packet
        let current = match self.packet_indexes.get(&address) {
            Some(index) => *index,
            None => 0,
        };
        let packet_index = current.wrapping_add(1);
        self.packet_indexes.insert(address, packet_index);
        let packet = NtpRequestPacket { index: packet_index };

        let _ = send_stream.encode(&packet);
        let bytes = match send_stream.export() {
            Ok(bytes) => bytes,
            Err(error) => return Err(NtpServerError::NetworkStreamError(error)),
        };

        self.send_times.insert(RequestKey { address, index: packet_index }, time);
        proof {
            assert(self.packet_indexes.map() =~= old(self).indexes().insert(address, packet_index));
            assert(bytes@ =~= ntp_request_bytes(packet_index));
        }
        Ok((address, bytes))
    }

    /// Whether processing this packet can finish: a response must answer a request that this server sent, and the
    /// round-trip delay of the resulting measurement must be computable.
    pub open spec fn processable(&self, source: SocketAddress, bytes: Seq<u8>, receive_time: i128) -> bool {
        classify_message(self.whitelist(), source, bytes) matches Ok(NtpMessage::Response(response)) ==> {
            let key = RequestKey { address: source, index: response.packet_index };
            &&& self.sent().dom().contains(key)
            &&& Times::spec_new(
                receive_time,
                self.sent()[key],
                response.precision,
                response.receive_time,
                response.send_time,
            ).delay_fits()
        }
    }

    /// Checks a received packet the way `process` does, without acting on it.
    pub fn classify(&self, source: SocketAddress, receive_buffer: &[u8], read_bytes: usize) -> (result: Result<
        NtpMessage,
        NtpServerError,
    >)
        requires
            read_bytes <= receive_buffer@.len(),
        ensures
            result == classify_message(self.whitelist(), source, receive_buffer@.take(read_bytes as int)),
    {
        let ghost bytes = receive_buffer@.take(read_bytes as int);

        // convert the `SocketAddr` into a `Ipv6Addr`. `Ipv6Addr`s do not contain the port the client connected from,
        // the lack of which is required for the whitelist implementation
        let address = match source {
            SocketAddress::V6(ip, _) => ip,
            SocketAddress::V4(_, _) => return Err(NtpServerError::InvalidIP),
        };

        // stop non-whitelisted data from continuing
        if !self.is_whitelisted(address) {
            return Err(NtpServerError::NotWhitelisted(source));
        }

        // make sure what we just read is not too big to be an eggine packet
        if read_bytes > MAX_NTP_PACKET_SIZE {
            return Err(NtpServerError::PacketTooBig(source));
        }

        let mut buffer: Vec<u8> = Vec::new();
        for i in 0..read_bytes
            invariant
                read_bytes <= receive_buffer@.len(),
                buffer@ == receive_buffer@.take(i as int),
        {
            buffer.push(receive_buffer[i]);
            proof {
                assert(receive_buffer@.take(i + 1) =~= receive_buffer@.take(i as int).push(receive_buffer@[i as int]));
            }
        }
        let mut receive_stream = NetworkReadStream::new();
        let _ = receive_stream.import(buffer);
        proof {
            assert(receive_stream.remaining() =~= bytes);
        }
        let ghost start = receive_stream;

        let packet_header = match receive_stream.decode::<NtpPacketHeader>() {
            Ok((header, _)) => header,
            Err(error) => return Err(NtpServerError::NetworkStreamError(error)),
        };
        let ghost length = (receive_stream.position() - start.position()) as nat;
        proof {
            lemma_advance(start, receive_stream, length);
        }
        let magic_number = ntp_magic_number();
        if packet_header.magic_number != magic_number {
            return Err(NtpServerError::InvalidMagicNumber(source));
        }

        match packet_header.packet_type {
            0 => match receive_stream.decode::<NtpRequestPacket>() {
                Ok((request, _)) => Ok(NtpMessage::Request(request)),
                Err(error) => Err(NtpServerError::NetworkStreamError(error)),
            },
            1 => match receive_stream.decode::<NtpResponsePacket>() {
                Ok((response, _)) => Ok(NtpMessage::Response(response)),
                Err(error) => Err(NtpServerError::NetworkStreamError(error)),
            },
            _ => Err(NtpServerError::InvalidPacketType(source)),
        }
    }

    /// Whether `process` can finish on this packet.
    pub fn can_process(&self, source: SocketAddress, receive_buffer: &[u8], read_bytes: usize, receive_time: i128) -> (result: bool)
        requires
            self.wf(),
            read_bytes <= receive_buffer@.len(),
        ensures
            result == self.processable(source, receive_buffer@.take(read_bytes as int), receive_time),
    {
        match self.classify(source, receive_buffer, read_bytes) {
            Ok(NtpMessage::Response(response)) => {
                let key = RequestKey { address: source, index: response.packet_index };
                match self.send_times.get(&key) {
                    Some(send_time) => {
                        let times = Times::new(
                            receive_time,
                            *send_time,
                            response.precision,
                            response.receive_time,
                            response.send_time,
                        );
                        times.can_compute_delay()
                    },
                    None => false,
                }
            },
            _ => true,
        }
    }

    /// Filter bad packets, then read the packet header and figure out what to do with the packet. A request is
    /// answered with the receive time `receive_time` and the send time `now`; a response becomes a timing measurement
    /// of the peer that sent it.
    pub fn process(
        &mut self,
        source: SocketAddress,
        receive_buffer: &[u8],
        read_bytes: usize,
        receive_time: i128,
        now: i128,
    ) -> (result: Result<NtpReply, NtpServerError>)
        requires
            old(self).wf(),
            read_bytes <= receive_buffer@.len(),
            old(self).processable(source, receive_buffer@.take(read_bytes as int), receive_time),
        ensures
            final(self).wf(),
            final(self).whitelist() == old(self).whitelist(),
            final(self).indexes() == old(self).indexes(),
            final(self).sent() == old(self).sent(),
            final(self).precision_spec() == old(self).precision_spec(),
            final(self).host() == old(self).host(),
            match classify_message(old(self).whitelist(), source, receive_buffer@.take(read_bytes as int)) {
                Err(error) => {
                    &&& result matches Err(emitted) && emitted == error
                    &&& if announces_response(old(self).whitelist(), source, receive_buffer@.take(read_bytes as int)) {
                        register_opened(old(self).registers(), final(self).registers(), source, old(self).precision_spec())
                    } else {
                        final(self).registers() == old(self).registers()
                    }
                },
                Ok(NtpMessage::Request(request)) => result matches Ok(NtpReply::Respond(address, bytes)) && address
                    == source && bytes@ == ntp_response_bytes(
                    request.index,
                    receive_time,
                    old(self).precision_spec(),
                    now,
                ) && final(self).registers() == old(self).registers(),
                Ok(NtpMessage::Response(response)) => {
                    let times = Times::spec_new(
                        receive_time,
                        old(self).sent()[RequestKey { address: source, index: response.packet_index }],
                        response.precision,
                        response.receive_time,
                        response.send_time,
                    );
                    &&& result matches Ok(NtpReply::Recorded(address)) && address == source
                    &&& final(self).registers().dom() == old(self).registers().dom().insert(source)
                    &&& forall|other: SocketAddress|
                        other != source && #[trigger] old(self).registers().dom().contains(other) ==> final(self).registers()[other] == old(self).registers()[other]
                    &&& old(self).registers().dom().contains(source) ==> added(
                        old(self).registers()[source],
                        final(self).registers()[source],
                        times,
                    )
                    &&& !old(self).registers().dom().contains(source) ==> {
                        let register = final(self).registers()[source];
                        &&& register.wf()
                        &&& register.entries() == seq![times]
                        &&& register.last_best_spec() is None
                        &&& register.precision_spec() == old(self).precision_spec()
                        &&& register.max_amount_spec() == SHIFT_REGISTER_SIZE
                    }
                },
            },
    {
        let message = match self.classify(source, receive_buffer, read_bytes) {
            Ok(message) => message,
            Err(error) => {
                // a response keeps a register for its sender from the moment its header is read, even when the
                // response itself cannot be read
                if self.announces_response(source, receive_buffer, read_bytes) {
                    self.open_register(source);
                }
                return Err(error);
            },
        };
        match message {
            NtpMessage::Request(request) => Ok(self.process_request(source, request, receive_time, now)),
            NtpMessage::Response(response) => Ok(self.process_response(source, response, receive_time)),
        }
    }

    /// Whether a packet gets as far as announcing a response, checked the way `classify` does.
    fn announces_response(&self, source: SocketAddress, receive_buffer: &[u8], read_bytes: usize) -> (result: bool)
        requires
            read_bytes <= receive_buffer@.len(),
        ensures
            result == announces_response(self.whitelist(), source, receive_buffer@.take(read_bytes as int)),
    {
        let ghost bytes = receive_buffer@.take(read_bytes as int);
        let address = match source {
            SocketAddress::V6(ip, _) => ip,
            SocketAddress::V4(_, _) => return false,
        };
        if !self.is_whitelisted(address) || read_bytes > MAX_NTP_PACKET_SIZE {
            return false;
        }
        let mut buffer: Vec<u8> = Vec::new();
        for i in 0..read_bytes
            invariant
                read_bytes <= receive_buffer@.len(),
                buffer@ == receive_buffer@.take(i as int),
        {
            buffer.push(receive_buffer[i]);
            proof {
                assert(receive_buffer@.take(i + 1) =~= receive_buffer@.take(i as int).push(receive_buffer@[i as int]));
            }
        }
        let mut receive_stream = NetworkReadStream::new();
        let _ = receive_stream.import(buffer);
        proof {
            assert(receive_stream.remaining() =~= bytes);
        }
        let packet_header = match receive_stream.decode::<NtpPacketHeader>() {
            Ok((header, _)) => header,
            Err(_) => return false,
        };
        let magic_number = ntp_magic_number();
        packet_header.magic_number == magic_number && packet_header.packet_type == 1
    }

    /// Keeps a register for `source`: an empty one where there is none.
    fn open_register(&mut self, source: SocketAddress)
        requires
            old(self).wf(),
        ensures
            final(self).wf(),
            final(self).whitelist() == old(self).whitelist(),
            final(self).indexes() == old(self).indexes(),
            final(self).sent() == old(self).sent(),
            final(self).precision_spec() == old(self).precision_spec(),
            final(self).host() == old(self).host(),
            register_opened(old(self).registers(), final(self).registers(), source, old(self).precision_spec()),
    {
        if !self.shift_register.contains_key(&source) {
            let register = TimesShiftRegister::new(SHIFT_REGISTER_SIZE, self.precision);
            self.shift_register.insert(source, register);
            proof {
                assert(self.shift_register.map().dom() =~= old(self).registers().dom().insert(source));
                assert forall|a: SocketAddress| #[trigger] self.shift_register.map().dom().contains(a) implies self.shift_register.map()[a].wf() by {
                    if a != source {
                        assert(old(self).registers().dom().contains(a));
                    }
                }
            }
        }
    }

    /// Answers a NTP timing information request with the timing information.
    fn process_request(&self, source: SocketAddress, request: NtpRequestPacket, receive_time: i128, now: i128) -> (reply: NtpReply)
        ensures
            reply matches NtpReply::Respond(address, bytes) && address == source && bytes@ == ntp_response_bytes(
                request.index,
                receive_time,
                self.precision_spec(),
                now,
            ),
    {
        NtpReply::Respond(source, ntp_response(request.index, receive_time, self.precision, now))
    }

    /// Records the timing information of a response in the peer's shift register.
    fn process_response(&mut self, source: SocketAddress, response: NtpResponsePacket, receive_time: i128) -> (reply:
        NtpReply)
        requires
            old(self).wf(),
            old(self).sent().dom().contains(RequestKey { address: source, index: response.packet_index }),
            Times::spec_new(
                receive_time,
                old(self).sent()[RequestKey { address: source, index: response.packet_index }],
                response.precision,
                response.receive_time,
                response.send_time,
            ).delay_fits(),
        ensures
            final(self).wf(),
            final(self).whitelist() == old(self).whitelist(),
            final(self).indexes() == old(self).indexes(),
            final(self).sent() == old(self).sent(),
            final(self).precision_spec() == old(self).precision_spec(),
            final(self).host() == old(self).host(),
            ({
                let times = Times::spec_new(
                    receive_time,
                    old(self).sent()[RequestKey { address: source, index: response.packet_index }],
                    response.precision,
                    response.receive_time,
                    response.send_time,
                );
                &&& reply matches NtpReply::Recorded(address) && address == source
                &&& final(self).registers().dom() == old(self).registers().dom().insert(source)
                &&& forall|other: SocketAddress|
                    other != source && #[trigger] old(self).registers().dom().contains(other) ==> final(self).registers()[other] == old(self).registers()[other]
                &&& old(self).registers().dom().contains(source) ==> added(
                    old(self).registers()[source],
                    final(self).registers()[source],
                    times,
                )
                &&& !old(self).registers().dom().contains(source) ==> {
                    let register = final(self).registers()[source];
                    &&& register.wf()
                    &&& register.entries() == seq![times]
                    &&& register.last_best_spec() is None
                    &&& register.precision_spec() == old(self).precision_spec()
                    &&& register.max_amount_spec() == SHIFT_REGISTER_SIZE
                }
            }),
    {
        let key = RequestKey { address: source, index: response.packet_index };
        let send_time = match self.send_times.get(&key) {
            Some(time) => *time,
            None => 0,
        };
        let times = Times::new(receive_time, send_time, response.precision, response.receive_time, response.send_time);

        let mut shift_register = match self.shift_register.remove(&source) {
            Some(register) => register,
            None => TimesShiftRegister::new(SHIFT_REGISTER_SIZE, self.precision),
        };
        let ghost before = shift_register;
        proof {
            if old(self).registers().dom().contains(source) {
                assert(old(self).registers()[source].wf());
            }
        }
        shift_register.add_time(times);
        proof {
            if !old(self).registers().dom().contains(source) {
                assert(best_of(before.entries()) is None);
                assert(shift_register.entries() =~= seq![times]);
            }
        }
        self.shift_register.insert(source, shift_register);
        proof {
            assert(self.shift_register.map().dom() =~= old(self).registers().dom().insert(source));
            assert forall|a: SocketAddress| #[trigger] self.shift_register.map().dom().contains(a) implies self.shift_register.map()[a].wf() by {
                if a != source {
                    assert(old(self).registers().dom().contains(a));
                }
            }
        }
        NtpReply::Recorded(source)
    }
}

/// Splitting a 128-bit number into its low and high 64 bits and joining them gives the number back.
proof fn lemma_join_words(x: i128)
    ensures
        join_words(low_word(x), high_word(x)) == x,
{
    assert((((((x as u128) >> 64u128) as u64) as u128) << 64u128 | (((x as u128) as u64) as u128)) as i128 == x)
        by (bit_vector);
}

proof fn lemma_magic_header(packet_type: u8, rest: Seq<u8>)
    ensures
        ntp_header_parse(seq![9u8, 0u8] + ntp_magic_bytes() + seq![packet_type] + rest) == Ok::<
            ((Seq<char>, u8), nat),
            NetworkError,
        >(((ntp_magic_chars(), packet_type), 12)),
{
    let s = seq![9u8, 0u8] + ntp_magic_bytes() + seq![packet_type] + rest;
    reveal_with_fuel(crate::carton::stream::le_value, 3);
    reveal_with_fuel(crate::carton::stream::vlq_readable, 2);
    reveal_with_fuel(crate::carton::stream::vlq_decode, 2);
    assert(s.take(2) =~= seq![9u8, 0u8]);
    assert(s.take(2).drop_first() =~= seq![0u8]);
    assert(s.take(2).drop_first().drop_first() =~= Seq::<u8>::empty());
    assert(crate::carton::stream::le_value(s.take(2)) == 9);
    assert(s.subrange(2, 11).map_values(|b: u8| b as char) =~= ntp_magic_chars());
    assert(s.skip(11).take(1) =~= seq![packet_type]);
    assert(s.skip(11).take(1).drop_first() =~= Seq::<u8>::empty());
}

/// What the server sends in answer to a time request decodes as a response header followed by a response that holds
/// the request's index, the server's precision, and the receive and send times.
#[verifier::spinoff_prover]
#[verifier::rlimit(40)]
pub proof fn ntp_response_roundtrip(index: u8, receive_time: i128, precision: u64, send_time: i128)
    ensures
        ntp_header_parse(ntp_response_bytes(index, receive_time, precision, send_time)) == Ok::<
            ((Seq<char>, u8), nat),
            NetworkError,
        >(((ntp_magic_chars(), 1u8), 12)),
        ntp_response_parse(ntp_response_bytes(index, receive_time, precision, send_time).skip(12)) == Ok::<
            (NtpResponsePacket, nat),
            NetworkError,
        >((NtpResponsePacket { packet_index: index, precision, receive_time, send_time }, 41)),
{
    let s = ntp_response_bytes(index, receive_time, precision, send_time);
    let body = s.skip(12);
    lemma_magic_header(1, body);
    assert(s =~= seq![9u8, 0u8] + ntp_magic_bytes() + seq![1u8] + body);
    crate::carton::stream::lemma_byte_pow_8();
    let words = seq![
        low_word(receive_time),
        high_word(receive_time),
        precision,
        low_word(send_time),
        high_word(send_time),
    ];
    let tail5 = Seq::<u8>::empty();
    let tail4 = le_bytes(high_word(send_time) as nat, 8);
    let tail3 = le_bytes(low_word(send_time) as nat, 8) + tail4;
    let tail2 = le_bytes(precision as nat, 8) + tail3;
    let tail1 = le_bytes(high_word(receive_time) as nat, 8) + tail2;
    assert(body =~= seq![index] + le_bytes(low_word(receive_time) as nat, 8) + tail1);
    assert(body.skip(1) =~= le_bytes(low_word(receive_time) as nat, 8) + tail1);
    crate::carton::stream::lemma_le_bytes_len(low_word(receive_time) as nat, 8);
    crate::carton::stream::lemma_le_bytes_len(high_word(receive_time) as nat, 8);
    crate::carton::stream::lemma_le_bytes_len(precision as nat, 8);
    crate::carton::stream::lemma_le_bytes_len(low_word(send_time) as nat, 8);
    crate::carton::stream::lemma_le_bytes_len(high_word(send_time) as nat, 8);
    assert(body.skip(9) =~= tail1);
    assert(body.skip(17) =~= tail2);
    assert(body.skip(25) =~= tail3);
    assert(body.skip(33) =~= tail4 + tail5);
    lemma_integer_parse_bytes(low_word(receive_time) as nat, 8, tail1);
    lemma_integer_parse_bytes(high_word(receive_time) as nat, 8, tail2);
    lemma_integer_parse_bytes(precision as nat, 8, tail3);
    lemma_integer_parse_bytes(low_word(send_time) as nat, 8, tail4);
    lemma_integer_parse_bytes(high_word(send_time) as nat, 8, tail5);
    reveal_with_fuel(crate::carton::stream::le_value, 2);
    assert(body.take(1).drop_first() =~= Seq::<u8>::empty());
    lemma_join_words(receive_time);
    lemma_join_words(send_time);
}

/// A time request that `sync_time` prepares, received from a whitelisted IPv6 peer, is classified as a request with
/// the same packet index.
pub proof fn ntp_request_roundtrip(whitelist: Set<u128>, ip: u128, port: u16, index: u8)
    requires
        whitelist.contains(ip),
    ensures
        classify_message(whitelist, SocketAddress::V6(ip, port), ntp_request_bytes(index)) == Ok::<
            NtpMessage,
            NtpServerError,
        >(NtpMessage::Request(NtpRequestPacket { index })),
{
    let s = ntp_request_bytes(index);
    assert(vstd::utf8::is_ascii_chars(ntp_magic_chars()));
    vstd::utf8::is_ascii_chars_encode_utf8(ntp_magic_chars());
    reveal_with_fuel(crate::carton::stream::le_bytes, 3);
    reveal_with_fuel(crate::carton::stream::vlq_bytes, 2);
    assert(crate::carton::stream::vlq_bytes(9, 4) =~= seq![9u8, 0u8]);
    assert(ntp_magic_chars().map_values(|c: char| c as u8) =~= ntp_magic_bytes());
    assert(s =~= seq![9u8, 0u8] + ntp_magic_bytes() + seq![0u8] + seq![index]);
    lemma_magic_header(0, seq![index]);
    reveal_with_fuel(crate::carton::stream::le_value, 2);
    assert(s.skip(12) =~= seq![index]);
    assert(seq![index].take(1) =~= seq![index]);
    assert(seq![index].drop_first() =~= Seq::<u8>::empty());
}

} // verus!
