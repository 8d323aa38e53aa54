use vstd::prelude::*;

use crate::network::address::SocketAddress;
use crate::network::error::NetworkError;
use crate::network::log::{Log, LogLevel};
use crate::network::network_stream::{lemma_advance, NetworkReadStream, NetworkWriteStream, StreamDecode};
use crate::network::ntp::corrected_time::CorrectedTime;
use crate::network::ntp::server::{next_index, ntp_magic_number, ntp_request_bytes, ChannelError, SHIFT_REGISTER_SIZE};
use crate::network::ntp::times::Times;
use crate::network::ntp::times_shift_register::{added, best_of, TimesShiftRegister};
use crate::network::payload::ntp_packet::{
    ntp_header_parse, ntp_response_parse, NtpPacketHeader, NtpRequestPacket, NtpResponsePacket,
};
use crate::network::server::server::MAX_PACKET_SIZE;
use crate::table::Table;

verus! {

#[derive(Debug)]
pub enum NtpClientError {
    /// Emitted if we encountered a problem creating + binding the socket. Fatal.
    Create(std::io::Error),
    /// Emitted if we encountered a problem connecting to a server socket. Fatal.
    Connect(std::io::Error),
    /// Emitted if the server response does not have the correct packet index.
    InvalidIndex,
    /// Emitted if we encountered a problem with the channel that the socket task fills.
    MpscError(ChannelError),
    /// Emitted if we encountered a problem with network streams.
    NetworkStreamError(NetworkError),
    /// Emitted if a received packet is too big to be an eggine packet. Non-fatal.
    PacketTooBig,
    /// Emitted if we encountered an OS socket error during a receive. Fatal.
    Receive(std::io::Error),
    /// Emitted if we encountered an OS socket error during a send. Fatal.
    Send(std::io::Error),
    /// Emitted if a socket call would block. With the non-blocking flag set, this indicates that we have consumed all
    /// available packets from the socket at the moment. Non-fatal.
    WouldBlock,
}

impl NtpClientError {
    /// Identifies whether or not the client needs a restart upon the emission of an error.
    pub fn is_fatal(&self) -> (fatal: bool)
        ensures
            fatal == (self is Create || self is Connect || self is Receive || self is Send || self matches NtpClientError::MpscError(
                ChannelError::Disconnected,
            )),
    {
        match self {
            NtpClientError::Create(_) => true,
            NtpClientError::Connect(_) => true,
            NtpClientError::InvalidIndex => false,
            NtpClientError::MpscError(error) => {
                match error {
                    ChannelError::Disconnected => true,
                    ChannelError::Empty => false,
                }
            },
            NtpClientError::NetworkStreamError(_) => false,
            NtpClientError::PacketTooBig => false,
            NtpClientError::Receive(_) => true,
            NtpClientError::Send(_) => true,
            NtpClientError::WouldBlock => false,
        }
    }
}

impl From<NetworkError> for NtpClientError {
    fn from(error: NetworkError) -> (result: Self)
        ensures
            result == NtpClientError::NetworkStreamError(error),
    {
        NtpClientError::NetworkStreamError(error)
    }
}

impl vstd::std_specs::convert::FromSpecImpl<NetworkError> for NtpClientError {
    open spec fn obeys_from_spec() -> bool {
        true
    }

    open spec fn from_spec(error: NetworkError) -> NtpClientError {
        NtpClientError::NetworkStreamError(error)
    }
}

impl From<ChannelError> for NtpClientError {
    fn from(error: ChannelError) -> (result: Self)
        ensures
            result == NtpClientError::MpscError(error),
    {
        NtpClientError::MpscError(error)
    }
}

impl vstd::std_specs::convert::FromSpecImpl<ChannelError> for NtpClientError {
    open spec fn obeys_from_spec() -> bool {
        true
    }

    open spec fn from_spec(error: ChannelError) -> NtpClientError {
        NtpClientError::MpscError(error)
    }
}

/// The server's answer in a NTP datagram: a packet header, then the response.
pub open spec fn ntp_answer_parse(bytes: Seq<u8>) -> Result<NtpResponsePacket, NetworkError> {
    match ntp_header_parse(bytes) {
        Err(error) => Err(error),
        Ok((_, length)) => match ntp_response_parse(bytes.skip(length as int)) {
            Err(error) => Err(error),
            Ok((response, _)) => Ok(response),
        },
    }
}

/// The NTP side of a client: the requests it sent, by packet index, and the timing measurements it collected. The
/// caller owns the socket and the clock, and sends what the client hands out.
#[derive(Debug)]
pub struct NtpClient {
    address: SocketAddress,
    log: Log,
    packet_index: u8,
    /// The last time we sent each request to the NTP server, by packet index.
    send_times: Table<u8, i128>,
    /// Used for determining the best system time correction.
    shift_register: TimesShiftRegister,
    /// Log lines to print.
    lines: Vec<String>,
}

impl NtpClient {
    pub closed spec fn index(&self) -> u8 {
        self.packet_index
    }

    pub closed spec fn sent(&self) -> Map<u8, i128> {
        self.send_times.map()
    }

    pub closed spec fn register(&self) -> TimesShiftRegister {
        self.shift_register
    }

    pub closed spec fn local_address(&self) -> SocketAddress {
        self.address
    }

    pub closed spec fn wf(&self) -> bool {
        self.send_times.wf() && self.shift_register.wf()
    }

    /// A client bound to `address`. `precision` is how long reading the system time takes, in nanoseconds.
    pub fn new(address: SocketAddress, precision: u64) -> (client: Self)
        ensures
            client.wf(),
            client.local_address() == address,
            client.index() == 0,
            client.sent() == Map::<u8, i128>::empty(),
            client.register().entries() == Seq::<Times>::empty(),
            client.register().last_best_spec() is None,
            client.register().precision_spec() == precision,
            client.register().max_amount_spec() == SHIFT_REGISTER_SIZE,
    {
        NtpClient {
            address,
            log: Log::default(),
            packet_index: 0,
            send_times: Table::new(),
            shift_register: TimesShiftRegister::new(SHIFT_REGISTER_SIZE, precision),
            lines: Vec::new(),
        }
    }

    /// Prepares a time synchronization request: the next packet index goes out, and `time` is recorded as the
    /// request's send time. Hands out the bytes to send to the server; the server's answer, once it arrives, is
    /// handed to `process`, which checks its size and records one measurement from it.
    pub fn sync_time(&mut self, time: i128) -> (bytes: Vec<u8>)
        requires
            old(self).wf(),
        ensures
            final(self).wf(),
            final(self).index() == next_index(old(self).index()),
            bytes@ == ntp_request_bytes(final(self).index()),
            final(self).sent() == old(self).sent().insert(final(self).index(), time),
            final(self).register() == old(self).register(),
            final(self).local_address() == old(self).local_address(),
    {
        self.packet_index = self.packet_index.wrapping_add(1);
        let header = NtpPacketHeader { magic_number: ntp_magic_number(), packet_type: 0 };
        let packet = NtpRequestPacket { index: self.packet_index };
        let mut send_stream = NetworkWriteStream::new();
        let _ = send_stream.encode(&header);
        let _ = send_stream.encode(&packet);
        let bytes = match send_stream.export() {
            Ok(bytes) => bytes,
            Err(_) => Vec::new(),
        };
        self.send_times.insert(self.packet_index, time);
        proof {
            assert(bytes@ =~= ntp_request_bytes(self.packet_index));
        }
        bytes
    }

    /// Whether the best measurement's time offset can be computed.
    pub fn can_correct(&self) -> (result: bool)
        requires
            self.wf(),
        ensures
            result == (best_of(self.register().entries()) matches Some(best) ==> best.time_offset_fits()),
    {
        match self.shift_register.best() {
            Some(best) => best.can_compute_time_offset(),
            None => true,
        }
    }

    /// The system time `system_time` with the offset of the best measurement, or no offset without one.
    pub fn get_corrected_time(&self, system_time: i128) -> (corrected: CorrectedTime)
        requires
            self.wf(),
            best_of(self.register().entries()) matches Some(best) ==> best.time_offset_fits(),
        ensures
            corrected.system_time_spec() == system_time,
            corrected.offset_spec() == match best_of(self.register().entries()) {
                Some(best) => best.time_offset_spec(),
                None => 0,
            },
    {
        let offset = match self.shift_register.best() {
            Some(best) => best.time_offset(),
            None => 0,
        };
        CorrectedTime::new(system_time, offset)
    }

    /// Whether `process` can finish on this datagram: the round-trip delay of a measurement must be computable.
    pub open spec fn processable(&self, bytes: Seq<u8>, receive_time: i128) -> bool {
        bytes.len() <= MAX_PACKET_SIZE ==> match ntp_answer_parse(bytes) {
            Ok(response) => self.sent().dom().contains(response.packet_index) ==> Times::spec_new(
                receive_time,
                self.sent()[response.packet_index],
                response.precision,
                response.receive_time,
                response.send_time,
            ).delay_fits(),
            Err(_) => true,
        }
    }

    /// Whether `process` can finish on this datagram.
    pub fn can_process(&self, receive_buffer: &[u8], read_bytes: usize, receive_time: i128) -> (result: bool)
        requires
            self.wf(),
            read_bytes <= receive_buffer@.len(),
        ensures
            result == self.processable(receive_buffer@.take(read_bytes as int), receive_time),
    {
        if read_bytes > MAX_PACKET_SIZE {
            return true;
        }
        let mut buffer: Vec<u8> = Vec::new();
        for i in 0..read_bytes
            invariant
                read_bytes <= receive_buffer@.len(),
                buffer@ == receive_buffer@.take(i as int),
        {
            buffer.push(receive_buffer[i]);
            proof {
                assert(receive_buffer@.take(i + 1) =~= receive_buffer@.take(i as int).push(receive_buffer@[i as int]));
            }
        }
        let ghost bytes = buffer@;
        let mut receive_stream = NetworkReadStream::new();
        let _ = receive_stream.import(buffer);
        proof {
            assert(receive_stream.remaining() =~= bytes);
        }
        let ghost start = receive_stream;
        let _ = match receive_stream.decode::<NtpPacketHeader>() {
            Ok(pair) => pair,
            Err(_) => return true,
        };
        let ghost length = (receive_stream.position() - start.position()) as nat;
        proof {
            lemma_advance(start, receive_stream, length);
        }
        let packet = match receive_stream.decode::<NtpResponsePacket>() {
            Ok((packet, _)) => packet,
            Err(_) => return true,
        };
        match self.send_times.get(&packet.packet_index) {
            Some(send_time) => {
                let times = Times::new(
                    receive_time,
                    *send_time,
                    packet.precision,
                    packet.receive_time,
                    packet.send_time,
                );
                times.can_compute_delay()
            },
            None => true,
        }
    }

    /// Process the server's answer received at `receive_time`: it becomes a timing measurement made of the send time of
    /// the request it answers and the server's times.
    pub fn process(&mut self, receive_buffer: &[u8], read_bytes: usize, receive_time: i128) -> (result: Result<
        (),
        NtpClientError,
    >)
        requires
            old(self).wf(),
            read_bytes <= receive_buffer@.len(),
            old(self).processable(receive_buffer@.take(read_bytes as int), receive_time),
        ensures
            final(self).wf(),
            final(self).index() == old(self).index(),
            final(self).sent() == old(self).sent(),
            final(self).local_address() == old(self).local_address(),
            if read_bytes > MAX_PACKET_SIZE {
                result matches Err(NtpClientError::PacketTooBig) && final(self).register() == old(self).register()
            } else {
                match ntp_answer_parse(receive_buffer@.take(read_bytes as int)) {
                    Err(error) => result matches Err(NtpClientError::NetworkStreamError(emitted)) && emitted == error
                        && final(self).register() == old(self).register(),
                    Ok(response) => if !old(self).sent().dom().contains(response.packet_index) {
                        result matches Err(NtpClientError::InvalidIndex) && final(self).register() == old(
                            self,
                        ).register()
                    } else {
                        result is Ok && added(
                            old(self).register(),
                            final(self).register(),
                            Times::spec_new(
                                receive_time,
                                old(self).sent()[response.packet_index],
                                response.precision,
                                response.receive_time,
                                response.send_time,
                            ),
                        )
                    },
                }
            },
    {
        // make sure what we just read is not too big to be an eggine packet
        if read_bytes > MAX_PACKET_SIZE {
            let line = self.log.record(LogLevel::Error, "received too big of a packet".to_owned(), 0);
            self.lines.push(line);
            return Err(NtpClientError::PacketTooBig);
        }

        // import raw bytes into the receive stream
        let mut buffer: Vec<u8> = Vec::new();
        for i in 0..read_bytes
            invariant
                read_bytes <= receive_buffer@.len(),
                buffer@ == receive_buffer@.take(i as int),
        {
            buffer.push(receive_buffer[i]);
            proof {
                assert(receive_buffer@.take(i + 1) =~= receive_buffer@.take(i as int).push(receive_buffer@[i as int]));
            }
        }
        let ghost bytes = buffer@;
        let mut receive_stream = NetworkReadStream::new();
        let _ = receive_stream.import(buffer);
        proof {
            assert(receive_stream.remaining() =~= bytes);
        }
        let ghost start = receive_stream;

        // figure out what to do with the packet we just got
        let _ = match receive_stream.decode::<NtpPacketHeader>() {
            Ok(pair) => pair,
            Err(error) => return Err(NtpClientError::NetworkStreamError(error)),
        };
        let ghost length = (receive_stream.position() - start.position()) as nat;
        proof {
            lemma_advance(start, receive_stream, length);
        }
        let packet = match receive_stream.decode::<NtpResponsePacket>() {
            Ok((packet, _)) => packet,
            Err(error) => return Err(NtpClientError::NetworkStreamError(error)),
        };
        let send_time = match self.send_times.get(&packet.packet_index) {
            Some(time) => *time,
            None => return Err(NtpClientError::InvalidIndex),
        };
        let times = Times::new(receive_time, send_time, packet.precision, packet.receive_time, packet.send_time);
        self.shift_register.add_time(times);
        Ok(())
    }

    /// The timing measurements collected so far.
    pub fn get_shift_register(&self) -> (register: &TimesShiftRegister)
        ensures
            *register == self.register(),
    {
        &self.shift_register
    }

    /// The log lines written since they were last taken.
    pub closed spec fn printed(&self) -> Seq<Seq<char>> {
        self.lines@.map_values(|line: String| line@)
    }

    /// Hands out the log lines written since the last call.
    pub fn take_lines(&mut self) -> (lines: Vec<String>)
        ensures
            final(self).index() == old(self).index(),
            final(self).sent() == old(self).sent(),
            final(self).register() == old(self).register(),
            final(self).local_address() == old(self).local_address(),
            old(self).wf() ==> final(self).wf(),
            lines@.map_values(|line: String| line@) == old(self).printed(),
            final(self).printed() == Seq::<Seq<char>>::empty(),
    {
        let mut lines = Vec::new();
        std::mem::swap(&mut lines, &mut self.lines);
        proof {
            assert(self.printed() =~= Seq::<Seq<char>>::empty());
        }
        lines
    }
}

} // verus!
