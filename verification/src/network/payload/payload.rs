use vstd::prelude::*;

use crate::carton::stream::writing::{write_u64, write_u8};
use crate::carton::stream::{le_bytes, Encode};
use crate::network::error::{NetworkError, NetworkStreamError};
use crate::carton::stream::le_value;
use crate::network::network_stream::{
    integer_parse, lemma_advance, lemma_integer_parse_bound, NetworkReadStream, StreamDecode, StreamPosition,
};

use super::disconnect_reason::{reason_byte, DisconnectionReason};

verus! {

/// Describes everything sent in a packet after the header. A payload is broken up into sub-payloads, which are
/// identified using a `SubPayloadType`. Since multiple sub-payloads can be sent in each payload, multiple pieces of
/// data from different contexts can be sent in a packet.
#[derive(Debug)]
pub struct Payload {
    sub_payloads: Vec<SubPayload>,
}

impl View for Payload {
    type V = Seq<SubPayload>;

    closed spec fn view(&self) -> Seq<SubPayload> {
        self.sub_payloads@
    }
}

impl Default for Payload {
    fn default() -> (payload: Self)
        ensures
            payload@ == Seq::<SubPayload>::empty(),
    {
        Payload { sub_payloads: Vec::new() }
    }
}

impl Payload {
    /// Add a sub-payload to our sub-payload list.
    pub fn add(&mut self, sub_payload: SubPayload)
        ensures
            final(self)@ == old(self)@.push(sub_payload),
    {
        self.sub_payloads.push(sub_payload);
    }

    /// Get a reference to our sub-payload list.
    pub fn get_all(&self) -> (sub_payloads: &Vec<SubPayload>)
        ensures
            sub_payloads@ == self@,
    {
        &self.sub_payloads
    }
}

/// Represents a piece of the payload. Used to encode data exchanged between both client and server.
#[derive(Clone, Copy, Debug, PartialEq, Eq, Structural)]
pub enum SubPayload {
    Disconnect(DisconnectionReason),
    Ping(u64),
    Pong(u64),
}

impl View for SubPayload {
    type V = SubPayload;

    open spec fn view(&self) -> SubPayload {
        *self
    }
}

/// Used to identify sub-payloads in payload encode/decode.
#[derive(Clone, Copy, Debug, PartialEq, Eq, Structural)]
pub enum SubPayloadType {
    Stream,
    CreateStream,
    Ping,
    Pong,
    Disconnect,
}

impl View for SubPayloadType {
    type V = SubPayloadType;

    open spec fn view(&self) -> SubPayloadType {
        *self
    }
}

/// The byte that identifies a sub-payload type.
pub open spec fn type_byte(sub_payload_type: SubPayloadType) -> u8 {
    match sub_payload_type {
        SubPayloadType::Stream => 1,
        SubPayloadType::CreateStream => 2,
        SubPayloadType::Ping => 3,
        SubPayloadType::Pong => 4,
        SubPayloadType::Disconnect => 5,
    }
}

impl Encode for SubPayloadType {
    open spec fn encodable(&self) -> bool {
        true
    }

    open spec fn encoding(&self) -> Seq<u8> {
        seq![type_byte(*self)]
    }

    fn encode(&self, vector: &mut Vec<u8>) {
        let value: u8 = match *self {
            SubPayloadType::CreateStream => 2,
            SubPayloadType::Disconnect => 5,
            SubPayloadType::Ping => 3,
            SubPayloadType::Pong => 4,
            SubPayloadType::Stream => 1,
        };
        write_u8(value, vector);
    }
}

impl StreamDecode for SubPayloadType {
    open spec fn decodable(s: Seq<u8>) -> bool {
        true
    }

    open spec fn parse(s: Seq<u8>) -> Result<(SubPayloadType, nat), NetworkError> {
        match integer_parse(s, 1) {
            Err(error) => Err(error),
            Ok((byte, length)) => if byte == 1 {
                Ok((SubPayloadType::Stream, length))
            } else if byte == 2 {
                Ok((SubPayloadType::CreateStream, length))
            } else if byte == 3 {
                Ok((SubPayloadType::Ping, length))
            } else if byte == 4 {
                Ok((SubPayloadType::Pong, length))
            } else if byte == 5 {
                Ok((SubPayloadType::Disconnect, length))
            } else {
                Err(NetworkError::Stream(NetworkStreamError::InvalidSubPayloadType))
            },
        }
    }

    fn decode(stream: &mut NetworkReadStream) -> (result: Result<(Self, StreamPosition), NetworkError>) {
        proof {
            lemma_integer_parse_bound(stream.remaining(), 1);
            reveal_with_fuel(crate::carton::stream::byte_pow, 2);
        }
        let (byte, position) = match stream.read_u8() {
            Ok(pair) => pair,
            Err(error) => return Err(error),
        };
        let sub_payload_type = match byte {
            1 => SubPayloadType::Stream,
            2 => SubPayloadType::CreateStream,
            3 => SubPayloadType::Ping,
            4 => SubPayloadType::Pong,
            5 => SubPayloadType::Disconnect,
            _ => return Err(NetworkError::Stream(NetworkStreamError::InvalidSubPayloadType)),
        };
        Ok((sub_payload_type, position))
    }
}

/// The bytes that encode a sub-payload: its type byte, then a reason byte or an 8 byte time.
pub open spec fn sub_payload_bytes(sub_payload: SubPayload) -> Seq<u8> {
    match sub_payload {
        SubPayload::Disconnect(reason) => seq![type_byte(SubPayloadType::Disconnect), reason_byte(reason)],
        SubPayload::Ping(time) => seq![type_byte(SubPayloadType::Ping)] + le_bytes(time as nat, 8),
        SubPayload::Pong(time) => seq![type_byte(SubPayloadType::Pong)] + le_bytes(time as nat, 8),
    }
}

impl Encode for SubPayload {
    open spec fn encodable(&self) -> bool {
        true
    }

    open spec fn encoding(&self) -> Seq<u8> {
        sub_payload_bytes(*self)
    }

    fn encode(&self, vector: &mut Vec<u8>) {
        match *self {
            SubPayload::Disconnect(reason) => {
                SubPayloadType::Disconnect.encode(vector);
                reason.encode(vector);
            },
            SubPayload::Ping(time) => {
                SubPayloadType::Ping.encode(vector);
                write_u64(time, vector);
            },
            SubPayload::Pong(time) => {
                SubPayloadType::Pong.encode(vector);
                write_u64(time, vector);
            },
        }
        proof {
            assert(final(vector)@ =~= old(vector)@ + sub_payload_bytes(*self));
        }
    }
}

impl StreamDecode for SubPayload {
    /// Stream and stream-creation sub-payloads are reserved: nothing decodes them yet.
    open spec fn decodable(s: Seq<u8>) -> bool {
        !(SubPayloadType::parse(s) matches Ok((t, _)) && (t == SubPayloadType::Stream || t
            == SubPayloadType::CreateStream))
    }

    open spec fn parse(s: Seq<u8>) -> Result<(SubPayload, nat), NetworkError> {
        match SubPayloadType::parse(s) {
            Err(error) => Err(error),
            Ok((sub_payload_type, header)) => {
                let body = s.skip(header as int);
                match sub_payload_type {
                    SubPayloadType::Disconnect => match DisconnectionReason::parse(body) {
                        Err(error) => Err(error),
                        Ok((reason, length)) => Ok((SubPayload::Disconnect(reason), header + length)),
                    },
                    SubPayloadType::Ping => match integer_parse(body, 8) {
                        Err(error) => Err(error),
                        Ok((time, length)) => Ok((SubPayload::Ping(time as u64), header + length)),
                    },
                    SubPayloadType::Pong => match integer_parse(body, 8) {
                        Err(error) => Err(error),
                        Ok((time, length)) => Ok((SubPayload::Pong(time as u64), header + length)),
                    },
                    _ => Err(NetworkError::EndOfStream),
                }
            },
        }
    }

    fn decode(stream: &mut NetworkReadStream) -> (result: Result<(Self, StreamPosition), NetworkError>) {
        let ghost start = *stream;
        let (sub_payload_type, _) = match stream.decode::<SubPayloadType>() {
            Ok(pair) => pair,
            Err(error) => return Err(error),
        };
        proof {
            lemma_advance(start, *stream, 1);
        }
        match sub_payload_type {
            SubPayloadType::Disconnect => {
                let (reason, position) = match stream.decode::<DisconnectionReason>() {
                    Ok(pair) => pair,
                    Err(error) => return Err(error),
                };
                Ok((SubPayload::Disconnect(reason), position))
            },
            SubPayloadType::Ping => {
                let (time, position) = match stream.read_u64() {
                    Ok(pair) => pair,
                    Err(error) => return Err(error),
                };
                Ok((SubPayload::Ping(time), position))
            },
            SubPayloadType::Pong => {
                let (time, position) = match stream.read_u64() {
                    Ok(pair) => pair,
                    Err(error) => return Err(error),
                };
                Ok((SubPayload::Pong(time), position))
            },
            SubPayloadType::CreateStream => {
                proof {
                    assert(false);
                }
                Err(NetworkError::EndOfStream)
            },
            SubPayloadType::Stream => {
                proof {
                    assert(false);
                }
                Err(NetworkError::EndOfStream)
            },
        }
    }
}

/// The bytes that encode a list of sub-payloads: each sub-payload's bytes, in order.
pub open spec fn payload_bytes(sub_payloads: Seq<SubPayload>) -> Seq<u8>
    decreases sub_payloads.len(),
{
    if sub_payloads.len() == 0 {
        Seq::empty()
    } else {
        sub_payload_bytes(sub_payloads[0]) + payload_bytes(sub_payloads.drop_first())
    }
}

/// The result of decoding sub-payloads from `s` until it ends: the sub-payloads in order and how many bytes they took,
/// or the first error.
pub open spec fn payload_parse(s: Seq<u8>) -> Result<(Seq<SubPayload>, nat), NetworkError>
    decreases s.len(),
{
    if s.len() == 0 {
        Ok((Seq::empty(), 0))
    } else {
        match SubPayload::parse(s) {
            Err(error) => Err(error),
            Ok((sub_payload, length)) => if 0 < length <= s.len() {
                match payload_parse(s.skip(length as int)) {
                    Err(error) => Err(error),
                    Ok((rest, rest_length)) => Ok((seq![sub_payload] + rest, length + rest_length)),
                }
            } else {
                Err(NetworkError::EndOfStream)
            },
        }
    }
}

/// Whether decoding sub-payloads from `s` until it ends meets no reserved sub-payload type.
pub open spec fn payload_decodable(s: Seq<u8>) -> bool
    decreases s.len(),
{
    s.len() == 0 || (SubPayload::decodable(s) && match SubPayload::parse(s) {
        Ok((_, length)) => 0 < length <= s.len() ==> payload_decodable(s.skip(length as int)),
        Err(_) => true,
    })
}

/// A parse result with `prefix` put in front of its sub-payloads and `consumed` added to its length.
pub open spec fn after_prefix(
    result: Result<(Seq<SubPayload>, nat), NetworkError>,
    prefix: Seq<SubPayload>,
    consumed: nat,
) -> Result<(Seq<SubPayload>, nat), NetworkError> {
    match result {
        Err(error) => Err(error),
        Ok((rest, length)) => Ok((prefix + rest, consumed + length)),
    }
}

/// Reading `count` bytes that were written as a number's little-endian encoding gives back the number.
pub proof fn lemma_integer_parse_bytes(n: nat, count: nat, rest: Seq<u8>)
    requires
        n < crate::carton::stream::byte_pow(count),
    ensures
        integer_parse(le_bytes(n, count) + rest, count) == Ok::<(nat, nat), NetworkError>((n, count)),
{
    crate::carton::stream::lemma_le_bytes_len(n, count);
    crate::carton::stream::lemma_le_value_of_bytes(n, count);
    vstd::arithmetic::div_mod::lemma_small_mod(n, crate::carton::stream::byte_pow(count));
    assert((le_bytes(n, count) + rest).take(count as int) =~= le_bytes(n, count));
}

/// Decoding a sub-payload's bytes gives back the sub-payload, whatever follows it.
pub proof fn sub_payload_roundtrip(sub_payload: SubPayload, rest: Seq<u8>)
    ensures
        sub_payload_bytes(sub_payload).len() >= 1,
        SubPayload::decodable(sub_payload_bytes(sub_payload) + rest),
        SubPayload::parse(sub_payload_bytes(sub_payload) + rest) == Ok::<(SubPayload, nat), NetworkError>(
            (sub_payload, sub_payload_bytes(sub_payload).len()),
        ),
{
    let s = sub_payload_bytes(sub_payload) + rest;
    reveal_with_fuel(crate::carton::stream::le_value, 2);
    assert(s.take(1).drop_first() =~= Seq::<u8>::empty());
    assert(le_value(s.take(1)) == s[0] as nat);
    crate::carton::stream::lemma_byte_pow_8();
    match sub_payload {
        SubPayload::Disconnect(reason) => {
            let body = s.skip(1);
            assert(body.take(1).drop_first() =~= Seq::<u8>::empty());
            assert(le_value(body.take(1)) == body[0] as nat);
        },
        SubPayload::Ping(time) => {
            assert(s.skip(1) =~= le_bytes(time as nat, 8) + rest);
            lemma_integer_parse_bytes(time as nat, 8, rest);
            crate::carton::stream::lemma_le_bytes_len(time as nat, 8);
        },
        SubPayload::Pong(time) => {
            assert(s.skip(1) =~= le_bytes(time as nat, 8) + rest);
            lemma_integer_parse_bytes(time as nat, 8, rest);
            crate::carton::stream::lemma_le_bytes_len(time as nat, 8);
        },
    }
}

/// Decoding the bytes of a list of sub-payloads to their end gives back the list.
pub proof fn payload_roundtrip(sub_payloads: Seq<SubPayload>)
    ensures
        payload_decodable(payload_bytes(sub_payloads)),
        payload_parse(payload_bytes(sub_payloads)) == Ok::<(Seq<SubPayload>, nat), NetworkError>(
            (sub_payloads, payload_bytes(sub_payloads).len()),
        ),
    decreases sub_payloads.len(),
{
    if sub_payloads.len() > 0 {
        let first = sub_payloads[0];
        let tail = sub_payloads.drop_first();
        let s = payload_bytes(sub_payloads);
        payload_roundtrip(tail);
        sub_payload_roundtrip(first, payload_bytes(tail));
        let n = sub_payload_bytes(first).len();
        assert(s.skip(n as int) =~= payload_bytes(tail));
        assert(seq![first] + tail =~= sub_payloads);
        assert(s.len() > 0);
        assert(SubPayload::parse(s) == Ok::<(SubPayload, nat), NetworkError>((first, n)));
        assert(payload_parse(s) == Ok::<(Seq<SubPayload>, nat), NetworkError>(
            (seq![first] + tail, n + payload_bytes(tail).len()),
        ));
    } else {
        assert(payload_bytes(sub_payloads) =~= Seq::<u8>::empty());
        assert(sub_payloads =~= Seq::<SubPayload>::empty());
    }
}

proof fn lemma_sub_payload_parse_length(s: Seq<u8>)
    ensures
        SubPayload::parse(s) matches Ok((_, length)) ==> 1 <= length <= s.len(),
{
}

proof fn lemma_payload_bytes_push(sub_payloads: Seq<SubPayload>, sub_payload: SubPayload)
    ensures
        payload_bytes(sub_payloads.push(sub_payload)) == payload_bytes(sub_payloads) + sub_payload_bytes(sub_payload),
    decreases sub_payloads.len(),
{
    if sub_payloads.len() == 0 {
        assert(sub_payloads.push(sub_payload).drop_first() =~= Seq::<SubPayload>::empty());
        assert(payload_bytes(Seq::<SubPayload>::empty()) =~= Seq::<u8>::empty());
        assert(sub_payloads.push(sub_payload)[0] == sub_payload);
        assert(payload_bytes(sub_payloads) =~= Seq::<u8>::empty());
        assert(payload_bytes(sub_payloads.push(sub_payload)) =~= sub_payload_bytes(sub_payload));
    } else {
        lemma_payload_bytes_push(sub_payloads.drop_first(), sub_payload);
        assert(sub_payloads.push(sub_payload).drop_first() =~= sub_payloads.drop_first().push(sub_payload));
        assert(payload_bytes(sub_payloads.push(sub_payload)) =~= payload_bytes(sub_payloads) + sub_payload_bytes(
            sub_payload,
        ));
    }
}

impl Encode for Payload {
    open spec fn encodable(&self) -> bool {
        true
    }

    open spec fn encoding(&self) -> Seq<u8> {
        payload_bytes(self@)
    }

    fn encode(&self, vector: &mut Vec<u8>) {
        let ghost start = vector@;
        for i in 0..self.sub_payloads.len()
            invariant
                vector@ == start + payload_bytes(self@.take(i as int)),
        {
            proof {
                lemma_payload_bytes_push(self@.take(i as int), self@[i as int]);
                assert(self@.take(i + 1) =~= self@.take(i as int).push(self@[i as int]));
            }
            self.sub_payloads[i].encode(vector);
        }
        proof {
            assert(self@.take(self@.len() as int) =~= self@);
        }
    }
}

impl StreamDecode for Payload {
    open spec fn decodable(s: Seq<u8>) -> bool {
        payload_decodable(s)
    }

    open spec fn parse(s: Seq<u8>) -> Result<(Seq<SubPayload>, nat), NetworkError> {
        payload_parse(s)
    }

    fn decode(stream: &mut NetworkReadStream) -> (result: Result<(Self, StreamPosition), NetworkError>) {
        let ghost start = *stream;
        let mut payload = Payload::default();
        let ghost mut consumed: nat = 0;
        proof {
            assert(start.remaining().skip(0) =~= start.remaining());
            assert(Seq::<SubPayload>::empty() + Seq::<SubPayload>::empty() =~= Seq::<SubPayload>::empty());
            assert(after_prefix(payload_parse(start.remaining()), payload@, 0) == payload_parse(start.remaining()))
                by {
                match payload_parse(start.remaining()) {
                    Ok((rest, length)) => {
                        assert(payload@ + rest =~= rest);
                    },
                    Err(_) => {},
                }
            }
        }
        loop
            invariant
                start == *old(stream),
                stream.wf(),
                stream.buffer() == start.buffer(),
                stream.position() == start.position() + consumed,
                payload_decodable(stream.remaining()),
                payload_parse(start.remaining()) == after_prefix(payload_parse(stream.remaining()), payload@, consumed),
            decreases stream.remaining().len(),
        {
            let at_end = match stream.is_at_end() {
                Ok(at_end) => at_end,
                Err(error) => return Err(error),
            };
            if at_end {
                proof {
                    assert(payload_parse(stream.remaining()) == Ok::<(Seq<SubPayload>, nat), NetworkError>(
                        (Seq::<SubPayload>::empty(), 0),
                    ));
                    assert(payload@ + Seq::<SubPayload>::empty() =~= payload@);
                }
                let position = stream.get_position();
                return Ok((payload, position));
            }
            let ghost before = *stream;
            proof {
                lemma_sub_payload_parse_length(before.remaining());
            }
            let (sub_payload, _) = match stream.decode::<SubPayload>() {
                Ok(pair) => pair,
                Err(error) => return Err(error),
            };
            let ghost length = (stream.position() - before.position()) as nat;
            proof {
                lemma_advance(before, *stream, length);
                let old_payload = payload@;
                match payload_parse(stream.remaining()) {
                    Ok((rest, rest_length)) => {
                        assert(old_payload + (seq![sub_payload] + rest) =~= old_payload.push(sub_payload) + rest);
                    },
                    Err(_) => {},
                }
            }
            payload.add(sub_payload);
            proof {
                consumed = consumed + length;
            }
        }
    }
}

} // verus!
