use vstd::prelude::*;

use crate::network::address::SocketAddress;
use crate::network::error::NetworkError;
use crate::network::log::{Log, LogLevel};
use crate::network::network_stream::{string_safe_parse, NetworkReadStream};
use crate::network::ntp::server::ntp_magic_number;
use crate::network::payload::ntp_packet::{ntp_magic_chars, NTP_MAGIC_NUMBER_LENGTH};

verus! {

/// The largest client packet this NTP server accepts, in bytes.
pub const MAX_NTP_PACKET_SIZE: usize = 5;

#[derive(Debug)]
pub enum NtpServerError {
    /// Emitted if we encountered a problem creating + binding the socket. Fatal.
    Create(std::io::Error),
    /// Emitted if the sender's address is not an IPv6 address. Non-fatal.
    InvalidIP,
    /// Emitted if the client did not send us the expected magic number.
    InvalidMagicNumber(SocketAddress),
    /// Emitted if we receive data from a non-whitelisted IP. Non-fatal.
    NotWhitelisted(SocketAddress),
    /// Emitted if a received packet is too big to be an eggine packet. Non-fatal.
    PacketTooBig(SocketAddress),
    /// Emitted if we encountered an OS socket error during a receive. Fatal.
    Receive(std::io::Error),
    /// Emitted if we encountered an OS socket error during a send. Fatal.
    Send(std::io::Error),
}

impl NtpServerError {
    /// Identifies whether or not the server needs a restart upon the emission of an error.
    pub fn is_fatal(&self) -> (fatal: bool)
        ensures
            fatal == (self is Create || self is Receive || self is Send),
    {
        match self {
            NtpServerError::Create(_) => true,
            NtpServerError::InvalidIP => false,
            NtpServerError::InvalidMagicNumber(_) => false,
            NtpServerError::NotWhitelisted(_) => false,
            NtpServerError::PacketTooBig(_) => false,
            NtpServerError::Receive(_) => true,
            NtpServerError::Send(_) => true,
        }
    }
}

/// An error of the NTP server or of the network streams it reads.
#[derive(Debug)]
pub enum BoxedNetworkError {
    NtpServer(NtpServerError),
    Stream(NetworkError),
}

impl From<NtpServerError> for BoxedNetworkError {
    fn from(error: NtpServerError) -> (result: Self)
        ensures
            result == BoxedNetworkError::NtpServer(error),
    {
        BoxedNetworkError::NtpServer(error)
    }
}

impl vstd::std_specs::convert::FromSpecImpl<NtpServerError> for BoxedNetworkError {
    open spec fn obeys_from_spec() -> bool {
        true
    }

    open spec fn from_spec(error: NtpServerError) -> BoxedNetworkError {
        BoxedNetworkError::NtpServer(error)
    }
}

/// The IPv6 addresses that are allowed to communicate with the NTP server.
#[derive(Debug)]
pub struct NtpServerWhitelist {
    pub list: Vec<u128>,
}

/// The 16 bytes of a time, most significant byte first.
pub open spec fn time_bytes(time: u128) -> Seq<u8> {
    Seq::new(16, |i: int| ((time >> ((120 - 8 * i) as u32)) & 0xff) as u8)
}

/// What the server answers to a datagram: only IPv6 senders are heard, and only those whose address is on the
/// whitelist; a datagram bigger than `MAX_NTP_PACKET_SIZE` is refused; the datagram must hold the magic number as a
/// string, and then the answer is the receive time and the send time.
pub open spec fn ntp_answer(
    list: Seq<u128>,
    source: SocketAddress,
    bytes: Seq<u8>,
    receive_time: u128,
    send_time: u128,
) -> Result<Seq<u8>, BoxedNetworkError> {
    match source {
        SocketAddress::V4(_, _) => Err(BoxedNetworkError::NtpServer(NtpServerError::InvalidIP)),
        SocketAddress::V6(ip, _) => if !list.contains(ip) {
            Err(BoxedNetworkError::NtpServer(NtpServerError::NotWhitelisted(source)))
        } else if bytes.len() > MAX_NTP_PACKET_SIZE {
            Err(BoxedNetworkError::NtpServer(NtpServerError::PacketTooBig(source)))
        } else {
            match string_safe_parse(bytes, NTP_MAGIC_NUMBER_LENGTH as nat, NTP_MAGIC_NUMBER_LENGTH as nat) {
                Err(error) => Err(BoxedNetworkError::Stream(error)),
                Ok((magic_number, _)) => if magic_number != ntp_magic_chars() {
                    Err(BoxedNetworkError::NtpServer(NtpServerError::InvalidMagicNumber(source)))
                } else {
                    Ok(time_bytes(receive_time) + time_bytes(send_time))
                },
            }
        },
    }
}

/// Writes a time as 16 bytes, most significant byte first.
fn write_time(time: u128, buffer: &mut Vec<u8>)
    ensures
        final(buffer)@ == old(buffer)@ + time_bytes(time),
{
    let ghost start = buffer@;
    for i in 0..16
        invariant
            buffer@ == start + time_bytes(time).take(i as int),
    {
        let shift: u32 = 120 - 8 * (i as u32);
        buffer.push(((time >> shift) & 0xff) as u8);
        proof {
            assert(time_bytes(time).take(i + 1) =~= time_bytes(time).take(i as int).push(time_bytes(time)[i as int]));
        }
    }
    proof {
        assert(time_bytes(time).take(16) =~= time_bytes(time));
    }
}

/// A NTP server that answers every request with its receive and send times. The caller owns the socket and the
/// clock, and sends what the server hands out.
#[derive(Debug)]
pub struct NtpServer {
    /// The address the server is bound to
    address: SocketAddress,
    /// The IPV6 addresses that are allowed to communicate with the NTP server.
    address_whitelist: NtpServerWhitelist,
    log: Log,
    /// Log lines to print.
    lines: Vec<String>,
}

impl NtpServer {
    pub closed spec fn list(&self) -> Seq<u128> {
        self.address_whitelist.list@
    }

    pub closed spec fn local_address(&self) -> SocketAddress {
        self.address
    }

    pub fn new(address: SocketAddress, address_whitelist: NtpServerWhitelist) -> (server: Self)
        ensures
            server.local_address() == address,
            server.list() == address_whitelist.list@,
    {
        NtpServer { address, address_whitelist, log: Log::default(), lines: Vec::new() }
    }

    /// Answers a datagram of `read_bytes` bytes from `source`, read into `receive_buffer` at `receive_time`: the
    /// answer, to send back to `source` as soon as possible, holds the receive time and `send_time`, in microseconds.
    pub fn recv(
        &mut self,
        source: SocketAddress,
        receive_buffer: &[u8],
        read_bytes: usize,
        receive_time: u128,
        send_time: u128,
    ) -> (result: Result<Vec<u8>, BoxedNetworkError>)
        requires
            read_bytes <= receive_buffer@.len(),
        ensures
            final(self).list() == old(self).list(),
            final(self).local_address() == old(self).local_address(),
            match ntp_answer(old(self).list(), source, receive_buffer@.take(read_bytes as int), receive_time, send_time) {
                Ok(answer) => result matches Ok(bytes) && bytes@ == answer,
                Err(BoxedNetworkError::NtpServer(error)) => result matches Err(BoxedNetworkError::NtpServer(emitted))
                    && emitted == error,
                Err(BoxedNetworkError::Stream(error)) => result matches Err(BoxedNetworkError::Stream(emitted))
                    && emitted == error,
            },
    {
        let address = match source {
            SocketAddress::V6(ip, _) => ip,
            SocketAddress::V4(_, _) => return Err(BoxedNetworkError::NtpServer(NtpServerError::InvalidIP)),
        };

        // only whitelisted addresses may talk to the server
        let mut whitelisted = false;
        for i in 0..self.address_whitelist.list.len()
            invariant
                whitelisted == exists|j: int| 0 <= j < i && self.address_whitelist.list@[j] == address,
                self.address_whitelist.list@ == old(self).list(),
                source matches SocketAddress::V6(ip, _) && ip == address,
        {
            if self.address_whitelist.list[i] == address {
                whitelisted = true;
            }
        }
        if !whitelisted {
            return Err(BoxedNetworkError::NtpServer(NtpServerError::NotWhitelisted(source)));
        }
        proof {
            assert(self.address_whitelist.list@.contains(address));
        }

        // make sure what we just read is not too big to be an eggine packet
        if read_bytes > MAX_NTP_PACKET_SIZE {
            let line = self.log.record(LogLevel::Error, "received too big of a packet".to_owned(), 0);
            self.lines.push(line);
            return Err(BoxedNetworkError::NtpServer(NtpServerError::PacketTooBig(source)));
        }

        let mut buffer: Vec<u8> = Vec::new();
        for i in 0..read_bytes
            invariant
                read_bytes <= receive_buffer@.len(),
                buffer@ == receive_buffer@.take(i as int),
        {
            buffer.push(receive_buffer[i]);
            proof {
                assert(receive_buffer@.take(i + 1) =~= receive_buffer@.take(i as int).push(receive_buffer@[i as int]));
            }
        }
        let ghost bytes = buffer@;
        let mut receive_stream = NetworkReadStream::new();
        let _ = receive_stream.import(buffer);
        proof {
            assert(receive_stream.remaining() =~= bytes);
        }

        let (magic_number, _) = match receive_stream.read_string_safe(
            NTP_MAGIC_NUMBER_LENGTH,
            NTP_MAGIC_NUMBER_LENGTH,
        ) {
            Ok(pair) => pair,
            Err(error) => return Err(BoxedNetworkError::Stream(error)),
        };
        let expected = ntp_magic_number();
        if magic_number != expected {
            let line = self.log.record(LogLevel::Error, "received invalid magic number".to_owned(), 0);
            self.lines.push(line);
            return Err(BoxedNetworkError::NtpServer(NtpServerError::InvalidMagicNumber(source)));
        }

        // send the server time back; the sooner it goes, the more accurate the send time is
        let mut answer: Vec<u8> = Vec::new();
        write_time(receive_time, &mut answer);
        write_time(send_time, &mut answer);
        Ok(answer)
    }

    /// The log lines written since they were last taken.
    pub closed spec fn printed(&self) -> Seq<Seq<char>> {
        self.lines@.map_values(|line: String| line@)
    }

    /// Hands out the log lines written since the last call.
    pub fn take_lines(&mut self) -> (lines: Vec<String>)
        ensures
            final(self).list() == old(self).list(),
            final(self).local_address() == old(self).local_address(),
            lines@.map_values(|line: String| line@) == old(self).printed(),
            final(self).printed() == Seq::<Seq<char>>::empty(),
    {
        let mut lines = Vec::new();
        std::mem::swap(&mut lines, &mut self.lines);
        proof {
            assert(self.printed() =~= Seq::<Seq<char>>::empty());
        }
        lines
    }
}

} // verus!
