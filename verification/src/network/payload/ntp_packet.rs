use vstd::prelude::*;

use crate::carton::stream::writing::{string_bytes, write_string, write_u64, write_u8};
use crate::carton::stream::{le_bytes, Encode};
use crate::network::error::NetworkError;
use crate::network::network_stream::{
    integer_parse, lemma_advance, lemma_integer_parse_bound, string_safe_parse, NetworkReadStream, StreamDecode,
    StreamPosition,
};

verus! {

/// The length of the NTP magic number.
pub const NTP_MAGIC_NUMBER_LENGTH: u64 = 9;

/// The NTP magic number, `EGGINENTP`.
pub open spec fn ntp_magic_chars() -> Seq<char> {
    seq!['E', 'G', 'G', 'I', 'N', 'E', 'N', 'T', 'P']
}

/// The low 64 bits of a 128-bit two's complement number.
pub open spec fn low_word(x: i128) -> u64 {
    (x as u128) as u64
}

/// The high 64 bits of a 128-bit two's complement number.
pub open spec fn high_word(x: i128) -> u64 {
    ((x as u128) >> 64u128) as u64
}

/// The 128-bit two's complement number whose low and high 64 bits are given.
pub open spec fn join_words(low: u64, high: u64) -> i128 {
    (((high as u128) << 64u128) | (low as u128)) as i128
}

/// Header of a NTP packet.
#[derive(Debug)]
pub struct NtpPacketHeader {
    pub magic_number: String,
    pub packet_type: u8,
}

impl View for NtpPacketHeader {
    type V = (Seq<char>, u8);

    open spec fn view(&self) -> (Seq<char>, u8) {
        (self.magic_number@, self.packet_type)
    }
}

/// The bytes of a NTP packet header: the magic number as a string, then the packet type.
pub open spec fn ntp_header_bytes(magic_number: Seq<char>, packet_type: u8) -> Seq<u8> {
    string_bytes(magic_number) + seq![packet_type]
}

impl Encode for NtpPacketHeader {
    open spec fn encodable(&self) -> bool {
        true
    }

    open spec fn encoding(&self) -> Seq<u8> {
        ntp_header_bytes(self.magic_number@, self.packet_type)
    }

    fn encode(&self, vector: &mut Vec<u8>) {
        write_string(&self.magic_number, vector);
        write_u8(self.packet_type, vector);
        proof {
            assert(final(vector)@ =~= old(vector)@ + self.encoding());
        }
    }
}

/// The result of decoding a NTP packet header: a 9 character string, then the packet type.
pub open spec fn ntp_header_parse(s: Seq<u8>) -> Result<((Seq<char>, u8), nat), NetworkError> {
    match string_safe_parse(s, NTP_MAGIC_NUMBER_LENGTH as nat, NTP_MAGIC_NUMBER_LENGTH as nat) {
        Err(error) => Err(error),
        Ok((magic_number, length)) => match integer_parse(s.skip(length as int), 1) {
            Err(error) => Err(error),
            Ok((packet_type, one)) => Ok(((magic_number, packet_type as u8), length + one)),
        },
    }
}

impl StreamDecode for NtpPacketHeader {
    open spec fn decodable(s: Seq<u8>) -> bool {
        true
    }

    open spec fn parse(s: Seq<u8>) -> Result<((Seq<char>, u8), nat), NetworkError> {
        ntp_header_parse(s)
    }

    fn decode(stream: &mut NetworkReadStream) -> (result: Result<(Self, StreamPosition), NetworkError>) {
        let ghost start = *stream;
        let (magic_number, _) = match stream.read_string_safe(NTP_MAGIC_NUMBER_LENGTH, NTP_MAGIC_NUMBER_LENGTH) {
            Ok(pair) => pair,
            Err(error) => return Err(error),
        };
        let ghost length = (stream.position() - start.position()) as nat;
        proof {
            lemma_advance(start, *stream, length);
        }
        let (packet_type, position) = match stream.read_u8() {
            Ok(pair) => pair,
            Err(error) => return Err(error),
        };
        Ok((NtpPacketHeader { packet_type, magic_number }, position))
    }
}

/// Sent to a peer in order to get timing information from them.
#[derive(Clone, Copy, Debug, PartialEq, Eq, Structural)]
pub struct NtpRequestPacket {
    pub index: u8,
}

impl View for NtpRequestPacket {
    type V = NtpRequestPacket;

    open spec fn view(&self) -> NtpRequestPacket {
        *self
    }
}

impl Encode for NtpRequestPacket {
    open spec fn encodable(&self) -> bool {
        true
    }

    open spec fn encoding(&self) -> Seq<u8> {
        seq![self.index]
    }

    fn encode(&self, vector: &mut Vec<u8>) {
        write_u8(self.index, vector);
    }
}

impl StreamDecode for NtpRequestPacket {
    open spec fn decodable(s: Seq<u8>) -> bool {
        true
    }

    open spec fn parse(s: Seq<u8>) -> Result<(NtpRequestPacket, nat), NetworkError> {
        match integer_parse(s, 1) {
            Err(error) => Err(error),
            Ok((index, length)) => Ok((NtpRequestPacket { index: index as u8 }, length)),
        }
    }

    fn decode(stream: &mut NetworkReadStream) -> (result: Result<(Self, StreamPosition), NetworkError>) {
        let (index, position) = match stream.read_u8() {
            Ok(pair) => pair,
            Err(error) => return Err(error),
        };
        Ok((NtpRequestPacket { index }, position))
    }
}

/// Sent to a peer after receiving a request for timing information.
#[derive(Clone, Copy, Debug, PartialEq, Eq, Structural)]
pub struct NtpResponsePacket {
    pub packet_index: u8,
    pub precision: u64,
    pub receive_time: i128,
    pub send_time: i128,
}

impl View for NtpResponsePacket {
    type V = NtpResponsePacket;

    open spec fn view(&self) -> NtpResponsePacket {
        *self
    }
}

impl Encode for NtpResponsePacket {
    open spec fn encodable(&self) -> bool {
        true
    }

    /// The high then low word of the receive time, the high then low word of the send time, then the precision. The
    /// packet index is not written.
    open spec fn encoding(&self) -> Seq<u8> {
        le_bytes(high_word(self.receive_time) as nat, 8) + le_bytes(low_word(self.receive_time) as nat, 8) + le_bytes(
            high_word(self.send_time) as nat,
            8,
        ) + le_bytes(low_word(self.send_time) as nat, 8) + le_bytes(self.precision as nat, 8)
    }

    fn encode(&self, vector: &mut Vec<u8>) {
        let receive_time = self.receive_time;
        let send_time = self.send_time;
        proof {
            assert(((receive_time >> 64u32) as u64) == ((receive_time as u128) >> 64u128) as u64) by (bit_vector);
            assert(((receive_time & 0xFFFF_FFFF_FFFF_FFFFi128) as u64) == (receive_time as u128) as u64)
                by (bit_vector);
            assert(((send_time >> 64u32) as u64) == ((send_time as u128) >> 64u128) as u64) by (bit_vector);
            assert(((send_time & 0xFFFF_FFFF_FFFF_FFFFi128) as u64) == (send_time as u128) as u64) by (bit_vector);
        }
        write_u64((receive_time >> 64u32) as u64, vector);
        write_u64((receive_time & 0xFFFF_FFFF_FFFF_FFFF) as u64, vector);

        write_u64((send_time >> 64u32) as u64, vector);
        write_u64((send_time & 0xFFFF_FFFF_FFFF_FFFF) as u64, vector);

        write_u64(self.precision, vector);
        proof {
            assert(final(vector)@ =~= old(vector)@ + self.encoding());
        }
    }
}

/// The result of decoding a NTP response from the front of `s`: the packet index, the receive time as low then high
/// word, the precision, and the send time as low then high word.
pub open spec fn ntp_response_parse(s: Seq<u8>) -> Result<(NtpResponsePacket, nat), NetworkError> {
    match integer_parse(s, 1) {
        Err(error) => Err(error),
        Ok((packet_index, _)) => match integer_parse(s.skip(1), 8) {
            Err(error) => Err(error),
            Ok((receive_low, _)) => match integer_parse(s.skip(9), 8) {
                Err(error) => Err(error),
                Ok((receive_high, _)) => match integer_parse(s.skip(17), 8) {
                    Err(error) => Err(error),
                    Ok((precision, _)) => match integer_parse(s.skip(25), 8) {
                        Err(error) => Err(error),
                        Ok((send_low, _)) => match integer_parse(s.skip(33), 8) {
                            Err(error) => Err(error),
                            Ok((send_high, _)) => Ok(
                                (
                                    NtpResponsePacket {
                                        packet_index: packet_index as u8,
                                        precision: precision as u64,
                                        receive_time: join_words(receive_low as u64, receive_high as u64),
                                        send_time: join_words(send_low as u64, send_high as u64),
                                    },
                                    41,
                                ),
                            ),
                        },
                    },
                },
            },
        },
    }
}

impl StreamDecode for NtpResponsePacket {
    open spec fn decodable(s: Seq<u8>) -> bool {
        true
    }

    open spec fn parse(s: Seq<u8>) -> Result<(NtpResponsePacket, nat), NetworkError> {
        ntp_response_parse(s)
    }

    fn decode(stream: &mut NetworkReadStream) -> (result: Result<(Self, StreamPosition), NetworkError>) {
        let ghost start = *stream;
        let ghost s = start.remaining();
        proof {
            lemma_integer_parse_bound(s, 1);
            lemma_integer_parse_bound(s.skip(1), 8);
            lemma_integer_parse_bound(s.skip(9), 8);
            lemma_integer_parse_bound(s.skip(17), 8);
            lemma_integer_parse_bound(s.skip(25), 8);
            lemma_integer_parse_bound(s.skip(33), 8);
            crate::carton::stream::lemma_byte_pow_8();
            reveal_with_fuel(crate::carton::stream::byte_pow, 2);
        }
        let (packet_index, _) = match stream.read_u8() {
            Ok(pair) => pair,
            Err(error) => return Err(error),
        };
        proof {
            lemma_advance(start, *stream, 1);
        }

        let (lower_half, _) = match stream.read_u64() {
            Ok(pair) => pair,
            Err(error) => return Err(error),
        };
        proof {
            lemma_advance(start, *stream, 9);
        }
        let (upper_half, _) = match stream.read_u64() {
            Ok(pair) => pair,
            Err(error) => return Err(error),
        };
        proof {
            lemma_advance(start, *stream, 17);
        }
        let receive_time = ((upper_half as u128) << 64u32 | lower_half as u128) as i128;

        let (precision, _) = match stream.read_u64() {
            Ok(pair) => pair,
            Err(error) => return Err(error),
        };
        proof {
            lemma_advance(start, *stream, 25);
        }

        let (lower_half, _) = match stream.read_u64() {
            Ok(pair) => pair,
            Err(error) => return Err(error),
        };
        proof {
            lemma_advance(start, *stream, 33);
        }
        let (upper_half, position) = match stream.read_u64() {
            Ok(pair) => pair,
            Err(error) => return Err(error),
        };
        let send_time = ((upper_half as u128) << 64u32 | lower_half as u128) as i128;

        Ok((NtpResponsePacket { packet_index, precision, receive_time, send_time }, position))
    }
}

} // verus!
