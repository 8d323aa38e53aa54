use vstd::prelude::*;

use crate::carton::stream::writing::{write_u32, write_u64};
use crate::carton::stream::{le_bytes, Encode};
use crate::network::error::NetworkError;
use super::acknowledge_mask::AcknowledgeMask;
use crate::network::network_stream::{
    integer_parse, lemma_advance, lemma_integer_parse_bound, NetworkReadStream, StreamDecode, StreamPosition,
};

use super::payload::{
    lemma_integer_parse_bytes, payload_bytes, payload_decodable, payload_parse, payload_roundtrip, Payload, SubPayload,
};

verus! {

#[derive(Clone, Copy, Debug, PartialEq, Eq, Structural)]
pub enum PacketError {
    InvalidContinueBit,
}

#[derive(Clone, Copy, Debug, PartialEq, Eq, Structural, Hash)]
pub enum PacketExtension {
    MegaPacket,
}

/// The amount of extensions there are. There can be up to `ceil(EXTENSIONS_COUNT / 32)` extension `u32`s in a packet
/// header.
pub const EXTENSIONS_COUNT: usize = 1;

/// The amount of `u32`s that hold the extension flags.
pub const EXTENSION_U32_COUNT: usize = 1;

#[derive(Clone, Copy, Debug, PartialEq, Eq, Structural)]
pub enum PacketExtensionError {
    InvalidConversion,
}

/// The extension that a flag index stands for.
pub open spec fn extension_of_index(index: nat) -> Result<PacketExtension, PacketExtensionError> {
    if index == 0 {
        Ok(PacketExtension::MegaPacket)
    } else {
        Err(PacketExtensionError::InvalidConversion)
    }
}

impl PacketExtension {
    /// Converts a flag index into the extension it stands for.
    pub fn try_into(index: usize) -> (result: Result<PacketExtension, PacketExtensionError>)
        ensures
            result == extension_of_index(index as nat),
    {
        match index {
            0 => Ok(PacketExtension::MegaPacket),
            _ => Err(PacketExtensionError::InvalidConversion),
        }
    }
}

/// Whether a list of extensions holds an extension.
fn has_extension(extensions: &Vec<PacketExtension>, extension: PacketExtension) -> (result: bool)
    ensures
        result == extensions@.contains(extension),
{
    for i in 0..extensions.len()
        invariant
            forall|j: int| 0 <= j < i ==> extensions@[j] != extension,
    {
        if extensions[i] == extension {
            return true;
        }
    }
    false
}

/// The extension flag words that encode a set of extensions: bit `i` of the first word is set when the extension with
/// index `i` is in the set, and no continue bit is set since all extensions fit in one word.
pub open spec fn extension_words(extensions: Set<PacketExtension>) -> Seq<u32> {
    seq![if extensions.contains(PacketExtension::MegaPacket) { 1u32 } else { 0u32 }]
}

/// Encodes the extension set into the flag words written in a packet header.
pub fn encode_extensions(extensions: &Vec<PacketExtension>) -> (words: [u32; EXTENSION_U32_COUNT])
    ensures
        words@ == extension_words(extensions@.to_set()),
{
    let mut u32_array: [u32; EXTENSION_U32_COUNT] = [0; EXTENSION_U32_COUNT];
    for i in 0..EXTENSIONS_COUNT
        invariant
            u32_array@.len() == 1,
            i == 0 ==> u32_array@[0] == 0,
            i == 1 ==> u32_array@[0] == extension_words(extensions@.to_set())[0],
    {
        // encode an extension flag into the current `u32` that we're on
        let extension = match PacketExtension::try_into(i) {
            Ok(extension) => extension,
            Err(_) => PacketExtension::MegaPacket,
        };
        if has_extension(extensions, extension) {
            u32_array[i / 31] = 1 << (i % 31) as u32;
        }
        // if we're finished encoding 31 bits of extensions but there's more that we have to encode after this, then
        // set the 32nd bit of the encoded `u32` to a 1 so we know that there's more extensions after this
        if i % 31 == 30 && i != EXTENSIONS_COUNT - 1 {
            u32_array[i / 31] = 1 << 31;
        }
        proof {
            assert(extensions@.to_set().contains(PacketExtension::MegaPacket) == extensions@.contains(
                PacketExtension::MegaPacket,
            ));
            assert(1u32 << 0u32 == 1) by (bit_vector);
        }
    }
    u32_array
}

/// The result of decoding the extension flag words from the front of `s`: the extension set and the 4 bytes of the
/// one flag word, or an error when that word has its continue bit set although no more words are expected.
pub open spec fn extensions_parse(s: Seq<u8>) -> Result<(Set<PacketExtension>, nat), NetworkError> {
    match integer_parse(s, 4) {
        Err(error) => Err(error),
        Ok((number, length)) => if number >= 0x8000_0000 {
            Err(NetworkError::Packet(PacketError::InvalidContinueBit))
        } else if number % 2 == 1 {
            Ok((set![PacketExtension::MegaPacket], length))
        } else {
            Ok((Set::empty(), length))
        },
    }
}

/// Decodes the extension flag words of a packet header.
pub fn decode_extensions(stream: &mut NetworkReadStream) -> (result: Result<Vec<PacketExtension>, NetworkError>)
    requires
        old(stream).wf(),
    ensures
        final(stream).wf(),
        final(stream).buffer() == old(stream).buffer(),
        match extensions_parse(old(stream).remaining()) {
            Ok((extensions, length)) => result matches Ok(decoded) && decoded@.to_set() == extensions
                && decoded@.no_duplicates() && final(stream).position() == old(stream).position() + length,
            Err(error) => result matches Err(emitted) && emitted == error && (error matches NetworkError::Packet(_)
                ==> final(stream).position() == old(stream).position() + 4),
        },
{
    proof {
        lemma_integer_parse_bound(stream.remaining(), 4);
        crate::carton::stream::lemma_byte_pow_8();
    }
    let mut extensions: Vec<PacketExtension> = Vec::new();

    // all `EXTENSIONS_COUNT` flags fit in the first flag word, so exactly one word is read
    let number: u32 = match stream.read_u32() {
        Ok((number, _)) => number,
        Err(error) => return Err(error),
    };
    let flag_set = number & 1;
    if flag_set != 0 {
        extensions.push(PacketExtension::MegaPacket);
    }
    proof {
        assert((number & 1 != 0) == (number % 2 == 1)) by (bit_vector);
        assert((number & 0x8000_0000 != 0) == (number >= 0x8000_0000)) by (bit_vector);
    }

    // check if the last read `u32` in the extension `u32`s has a zero continue bit. if not, error out
    if (number & 0x8000_0000) != 0 {
        return Err(NetworkError::Packet(PacketError::InvalidContinueBit));
    }
    proof {
        if number % 2 == 1 {
            assert(extensions@ =~= seq![PacketExtension::MegaPacket]);
            assert(extensions@.to_set() =~= set![PacketExtension::MegaPacket]) by {
                assert(extensions@[0] == PacketExtension::MegaPacket);
            }
        } else {
            assert(extensions@.to_set() =~= Set::<PacketExtension>::empty());
        }
    }
    Ok(extensions)
}

/// Decoding the flag word that encodes a set of extensions gives back that set, whatever follows the word.
pub proof fn extensions_roundtrip(extensions: Set<PacketExtension>, rest: Seq<u8>)
    ensures
        extensions_parse(le_bytes(extension_words(extensions)[0] as nat, 4) + rest) == Ok::<
            (Set<PacketExtension>, nat),
            NetworkError,
        >((extensions, 4)),
{
    let word = extension_words(extensions)[0];
    crate::carton::stream::lemma_byte_pow_8();
    crate::carton::stream::lemma_le_bytes_len(word as nat, 4);
    lemma_integer_parse_bytes(word as nat, 4, rest);
    if extensions.contains(PacketExtension::MegaPacket) {
        assert(extensions =~= set![PacketExtension::MegaPacket]);
    } else {
        assert(extensions =~= Set::<PacketExtension>::empty());
    }
}

/// Packets are the format used by the client and server to communicate information. They are synchronized using
/// sequence numbers that is not revealed to any other clients connected to the server.
#[derive(Debug)]
pub struct Packet {
    /// Used to determine which out of the last 128 sent packets were received correctly.
    pub acknowledge_mask: [u64; 2],
    /// The extensions enabled on the packet.
    extensions: Vec<PacketExtension>,
    /// Packet contents.
    payload: Payload,
    /// The highest acknowledged sequence we received from someone.
    pub highest_acknowledged_sequence: u32,
    /// The sequence number identifying this packet on the connection that sent it.
    pub sequence_number: u32,
}

/// What a packet holds.
pub struct PacketView {
    pub acknowledge_mask: Seq<u64>,
    pub extensions: Set<PacketExtension>,
    pub sub_payloads: Seq<SubPayload>,
    pub highest_acknowledged_sequence: u32,
    pub sequence_number: u32,
}

impl View for Packet {
    type V = PacketView;

    closed spec fn view(&self) -> PacketView {
        PacketView {
            acknowledge_mask: self.acknowledge_mask@,
            extensions: self.extensions@.to_set(),
            sub_payloads: self.payload@,
            highest_acknowledged_sequence: self.highest_acknowledged_sequence,
            sequence_number: self.sequence_number,
        }
    }
}

/// The bytes of a packet header: sequence number, highest acknowledged sequence, the two acknowledge mask words and
/// the extension flag word.
pub open spec fn packet_header_bytes(packet: PacketView) -> Seq<u8> {
    le_bytes(packet.sequence_number as nat, 4) + le_bytes(packet.highest_acknowledged_sequence as nat, 4) + le_bytes(
        packet.acknowledge_mask[0] as nat,
        8,
    ) + le_bytes(packet.acknowledge_mask[1] as nat, 8) + le_bytes(extension_words(packet.extensions)[0] as nat, 4)
}

/// The bytes that encode a packet: its header, then its payload.
pub open spec fn packet_bytes(packet: PacketView) -> Seq<u8> {
    packet_header_bytes(packet) + payload_bytes(packet.sub_payloads)
}

/// The result of decoding a packet from `s`: the header fields in order, then sub-payloads until the end.
pub open spec fn packet_parse(s: Seq<u8>) -> Result<(PacketView, nat), NetworkError> {
    match integer_parse(s, 4) {
        Err(error) => Err(error),
        Ok((sequence_number, _)) => match integer_parse(s.skip(4), 4) {
            Err(error) => Err(error),
            Ok((highest, _)) => match integer_parse(s.skip(8), 8) {
                Err(error) => Err(error),
                Ok((low, _)) => match integer_parse(s.skip(16), 8) {
                    Err(error) => Err(error),
                    Ok((high, _)) => match extensions_parse(s.skip(24)) {
                        Err(error) => Err(error),
                        Ok((extensions, _)) => match payload_parse(s.skip(28)) {
                            Err(error) => Err(error),
                            Ok((sub_payloads, length)) => Ok(
                                (
                                    PacketView {
                                        acknowledge_mask: seq![low as u64, high as u64],
                                        extensions,
                                        sub_payloads,
                                        highest_acknowledged_sequence: highest as u32,
                                        sequence_number: sequence_number as u32,
                                    },
                                    28 + length,
                                ),
                            ),
                        },
                    },
                },
            },
        },
    }
}

impl Packet {
    pub fn new(sequence_number: u32, highest_acknowledged_sequence: u32) -> (packet: Self)
        ensures
            packet@.acknowledge_mask == seq![0u64, 0u64],
            packet@.extensions == Set::<PacketExtension>::empty(),
            packet@.sub_payloads == Seq::<SubPayload>::empty(),
            packet@.highest_acknowledged_sequence == highest_acknowledged_sequence,
            packet@.sequence_number == sequence_number,
    {
        let packet = Packet {
            acknowledge_mask: [0; 2],
            extensions: Vec::new(),
            highest_acknowledged_sequence,
            sequence_number,
            payload: Payload::default(),
        };
        proof {
            assert(packet.acknowledge_mask@ =~= seq![0u64, 0u64]);
            assert(packet.extensions@.to_set() =~= Set::<PacketExtension>::empty());
        }
        packet
    }

    /// Resets the payload and configures the sequence numbers/acknowledgement mask for the next send.
    pub fn next(&mut self, last_sequence_number: u32)
        requires
            old(self)@.sequence_number < u32::MAX,
        ensures
            final(self)@.sequence_number == old(self)@.sequence_number + 1,
            final(self)@.highest_acknowledged_sequence == last_sequence_number,
            final(self)@.sub_payloads == Seq::<SubPayload>::empty(),
            final(self)@.acknowledge_mask == old(self)@.acknowledge_mask,
            final(self)@.extensions == old(self)@.extensions,
    {
        self.sequence_number = self.sequence_number + 1;
        self.highest_acknowledged_sequence = last_sequence_number;
        self.payload = Payload::default();
    }

    /// Sets the header fields for sending: the acknowledge mask, the packet's sequence number and the highest sequence
    /// received from the other side.
    pub fn prepare(&mut self, acknowledge_mask: AcknowledgeMask, sequence_number: u32, highest_acknowledged_sequence: u32)
        ensures
            final(self)@.acknowledge_mask == seq![acknowledge_mask.words().0, acknowledge_mask.words().1],
            final(self)@.sequence_number == sequence_number,
            final(self)@.highest_acknowledged_sequence == highest_acknowledged_sequence,
            final(self)@.sub_payloads == old(self)@.sub_payloads,
            final(self)@.extensions == old(self)@.extensions,
    {
        let (low, high) = acknowledge_mask.get_words();
        self.acknowledge_mask = [low, high];
        self.sequence_number = sequence_number;
        self.highest_acknowledged_sequence = highest_acknowledged_sequence;
        proof {
            assert(self.acknowledge_mask@ =~= seq![low, high]);
        }
    }

    pub fn add_sub_payload(&mut self, sub_payload: SubPayload)
        ensures
            final(self)@.sub_payloads == old(self)@.sub_payloads.push(sub_payload),
            final(self)@.acknowledge_mask == old(self)@.acknowledge_mask,
            final(self)@.extensions == old(self)@.extensions,
            final(self)@.highest_acknowledged_sequence == old(self)@.highest_acknowledged_sequence,
            final(self)@.sequence_number == old(self)@.sequence_number,
    {
        self.payload.add(sub_payload);
    }

    pub fn get_sub_payloads(&self) -> (sub_payloads: &Vec<SubPayload>)
        ensures
            sub_payloads@ == self@.sub_payloads,
    {
        self.payload.get_all()
    }
}

impl Encode for Packet {
    open spec fn encodable(&self) -> bool {
        true
    }

    open spec fn encoding(&self) -> Seq<u8> {
        packet_bytes(self@)
    }

    fn encode(&self, vector: &mut Vec<u8>) {
        let ghost start = vector@;
        write_u32(self.sequence_number, vector);
        write_u32(self.highest_acknowledged_sequence, vector);

        for i in 0..2
            invariant
                i <= 2,
                i == 0 ==> vector@ == start + le_bytes(self.sequence_number as nat, 4) + le_bytes(
                    self.highest_acknowledged_sequence as nat,
                    4,
                ),
                i == 1 ==> vector@ == start + le_bytes(self.sequence_number as nat, 4) + le_bytes(
                    self.highest_acknowledged_sequence as nat,
                    4,
                ) + le_bytes(self.acknowledge_mask@[0] as nat, 8),
                i == 2 ==> vector@ == start + le_bytes(self.sequence_number as nat, 4) + le_bytes(
                    self.highest_acknowledged_sequence as nat,
                    4,
                ) + le_bytes(self.acknowledge_mask@[0] as nat, 8) + le_bytes(self.acknowledge_mask@[1] as nat, 8),
        {
            write_u64(self.acknowledge_mask[i], vector);
        }

        let words = encode_extensions(&self.extensions);
        write_u32(words[0], vector);

        self.payload.encode(vector);
        proof {
            assert(vector@ =~= start + packet_bytes(self@));
        }
    }
}

impl StreamDecode for Packet {
    open spec fn decodable(s: Seq<u8>) -> bool {
        s.len() >= 28 ==> payload_decodable(s.skip(28))
    }

    open spec fn parse(s: Seq<u8>) -> Result<(PacketView, nat), NetworkError> {
        packet_parse(s)
    }

    fn decode(stream: &mut NetworkReadStream) -> (result: Result<(Self, StreamPosition), NetworkError>) {
        let ghost start = *stream;
        let ghost s = start.remaining();
        proof {
            lemma_integer_parse_bound(s, 4);
            lemma_integer_parse_bound(s.skip(4), 4);
            lemma_integer_parse_bound(s.skip(8), 8);
            lemma_integer_parse_bound(s.skip(16), 8);
            crate::carton::stream::lemma_byte_pow_8();
        }
        let sequence_number = match stream.read_u32() {
            Ok((number, _)) => number,
            Err(error) => return Err(error),
        };
        proof {
            lemma_advance(start, *stream, 4);
        }
        let ghost at4 = *stream;
        let highest_acknowledged_sequence = match stream.read_u32() {
            Ok((number, _)) => number,
            Err(error) => return Err(error),
        };
        proof {
            lemma_advance(start, *stream, 8);
            assert(s.skip(4).skip(0) =~= s.skip(4));
        }
        let low = match stream.read_u64() {
            Ok((number, _)) => number,
            Err(error) => return Err(error),
        };
        proof {
            lemma_advance(start, *stream, 16);
        }
        let high = match stream.read_u64() {
            Ok((number, _)) => number,
            Err(error) => return Err(error),
        };
        proof {
            lemma_advance(start, *stream, 24);
        }
        let extensions = match decode_extensions(stream) {
            Ok(extensions) => extensions,
            Err(error) => return Err(error),
        };
        proof {
            lemma_advance(start, *stream, 28);
        }
        let (payload, position) = match stream.decode::<Payload>() {
            Ok(pair) => pair,
            Err(error) => return Err(error),
        };
        let packet = Packet {
            acknowledge_mask: [low, high],
            extensions,
            payload,
            highest_acknowledged_sequence,
            sequence_number,
        };
        proof {
            assert(packet.acknowledge_mask@ =~= seq![low, high]);
        }
        Ok((packet, position))
    }
}

/// Decoding a packet's bytes gives back the packet: its sequence numbers, acknowledge mask, extensions and
/// sub-payloads.
pub proof fn packet_roundtrip(packet: PacketView)
    requires
        packet.acknowledge_mask.len() == 2,
    ensures
        Packet::decodable(packet_bytes(packet)),
        Packet::parse(packet_bytes(packet)) == Ok::<(PacketView, nat), NetworkError>(
            (packet, packet_bytes(packet).len()),
        ),
{
    let s = packet_bytes(packet);
    let word = extension_words(packet.extensions)[0];
    crate::carton::stream::lemma_byte_pow_8();
    crate::carton::stream::lemma_le_bytes_len(packet.sequence_number as nat, 4);
    crate::carton::stream::lemma_le_bytes_len(packet.highest_acknowledged_sequence as nat, 4);
    crate::carton::stream::lemma_le_bytes_len(packet.acknowledge_mask[0] as nat, 8);
    crate::carton::stream::lemma_le_bytes_len(packet.acknowledge_mask[1] as nat, 8);
    crate::carton::stream::lemma_le_bytes_len(word as nat, 4);
    let payload = payload_bytes(packet.sub_payloads);
    lemma_integer_parse_bytes(packet.sequence_number as nat, 4, s.skip(4));
    assert(s =~= le_bytes(packet.sequence_number as nat, 4) + s.skip(4));
    lemma_integer_parse_bytes(packet.highest_acknowledged_sequence as nat, 4, s.skip(8));
    assert(s.skip(4) =~= le_bytes(packet.highest_acknowledged_sequence as nat, 4) + s.skip(8));
    lemma_integer_parse_bytes(packet.acknowledge_mask[0] as nat, 8, s.skip(16));
    assert(s.skip(8) =~= le_bytes(packet.acknowledge_mask[0] as nat, 8) + s.skip(16));
    lemma_integer_parse_bytes(packet.acknowledge_mask[1] as nat, 8, s.skip(24));
    assert(s.skip(16) =~= le_bytes(packet.acknowledge_mask[1] as nat, 8) + s.skip(24));
    lemma_integer_parse_bytes(word as nat, 4, s.skip(28));
    assert(s.skip(24) =~= le_bytes(word as nat, 4) + s.skip(28));
    assert(s.skip(28) =~= payload);
    payload_roundtrip(packet.sub_payloads);
    assert(seq![packet.acknowledge_mask[0], packet.acknowledge_mask[1]] =~= packet.acknowledge_mask);
    if packet.extensions.contains(PacketExtension::MegaPacket) {
        assert(packet.extensions =~= set![PacketExtension::MegaPacket]);
    } else {
        assert(packet.extensions =~= Set::<PacketExtension>::empty());
    }
}

/// Whether a packet's bytes can be decoded: no sub-payload that the decoder reaches has a reserved type.
pub fn can_decode(bytes: &[u8]) -> (result: bool)
    ensures
        result == <Packet as StreamDecode>::decodable(bytes@),
{
    if bytes.len() < 28 {
        return true;
    }
    let mut buffer: Vec<u8> = Vec::new();
    for i in 0..bytes.len()
        invariant
            buffer@ == bytes@.take(i as int),
    {
        buffer.push(bytes[i]);
        proof {
            assert(bytes@.take(i + 1) =~= bytes@.take(i as int).push(bytes@[i as int]));
        }
    }
    proof {
        assert(bytes@.take(bytes@.len() as int) =~= bytes@);
    }
    let mut stream = NetworkReadStream::new();
    let _ = stream.import(buffer);

    // step over the header
    let _ = stream.read_u64();
    let _ = stream.read_u64();
    let _ = stream.read_u64();
    let _ = stream.read_u32();
    proof {
        assert(stream.remaining() =~= bytes@.skip(28));
    }
    loop
        invariant
            stream.wf(),
            stream.buffer() == bytes@,
            bytes@.len() >= 28,
            payload_decodable(bytes@.skip(28)) == payload_decodable(stream.remaining()),
        decreases stream.remaining().len(),
    {
        let position = stream.get_position();
        proof {
            assert(stream.position() <= bytes@.len()) by {
                stream.lemma_wf();
            }
        }
        if position as usize >= bytes.len() {
            return true;
        }
        let kind = bytes[position as usize];
        proof {
            let s = stream.remaining();
            assert(s[0] == kind);
            assert(s.take(1).drop_first() =~= Seq::<u8>::empty());
            assert(s.take(1)[0] == kind);
            assert(crate::carton::stream::le_value(s.take(1).drop_first()) == 0);
            assert(crate::carton::stream::le_value(s.take(1)) == kind as nat);
        }
        if kind == 1 || kind == 2 {
            return false;
        }
        let ghost s = stream.remaining();
        match stream.decode::<SubPayload>() {
            Ok((_, next)) => {
                if next == position {
                    return true;
                }
                proof {
                    assert(stream.remaining() =~= s.skip(next - position));
                }
            },
            Err(_) => return true,
        }
    }
}

} // verus!
