use vstd::prelude::*;

use crate::carton::stream::reading::{read_char, read_u16, read_u32, read_u64, read_u8, read_vlq};
use crate::carton::stream::writing::{
    string_bytes, write_char, write_string, write_u16, write_u32, write_u64, write_u8, write_vlq,
};
use crate::carton::stream::{le_bytes, le_value, string_push, vlq_bytes, vlq_decode, vlq_readable, Encode};

use super::error::{NetworkError, ReadStringSafeError};

verus! {

/// A position within a stream, in bytes.
pub type StreamPosition = u64;

/// Used to write data over the network. Network streams encode data into bytes. Since network streams are built upon a
/// UDP-based protocol, data is necessarily processed in discrete chunks, and it is exported in discrete chunks as well.
#[derive(Debug)]
pub struct NetworkWriteStream {
    buffer: Vec<u8>,
}

impl View for NetworkWriteStream {
    type V = Seq<u8>;

    closed spec fn view(&self) -> Seq<u8> {
        self.buffer@
    }
}

impl NetworkWriteStream {
    pub fn new() -> (stream: Self)
        ensures
            stream@ == Seq::<u8>::empty(),
    {
        NetworkWriteStream { buffer: Vec::new() }
    }

    pub fn write_u8(&mut self, byte: u8) -> (result: Result<(), NetworkError>)
        ensures
            result is Ok,
            final(self)@ == old(self)@.push(byte),
    {
        write_u8(byte, &mut self.buffer);
        Ok(())
    }

    pub fn write_char(&mut self, character: char) -> (result: Result<(), NetworkError>)
        ensures
            result is Ok,
            final(self)@ == old(self)@.push(character as u8),
    {
        write_char(character, &mut self.buffer);
        Ok(())
    }

    pub fn write_u16(&mut self, number: u16) -> (result: Result<(), NetworkError>)
        ensures
            result is Ok,
            final(self)@ == old(self)@ + le_bytes(number as nat, 2),
    {
        write_u16(number, &mut self.buffer);
        Ok(())
    }

    pub fn write_u32(&mut self, number: u32) -> (result: Result<(), NetworkError>)
        ensures
            result is Ok,
            final(self)@ == old(self)@ + le_bytes(number as nat, 4),
    {
        write_u32(number, &mut self.buffer);
        Ok(())
    }

    pub fn write_u64(&mut self, number: u64) -> (result: Result<(), NetworkError>)
        ensures
            result is Ok,
            final(self)@ == old(self)@ + le_bytes(number as nat, 8),
    {
        write_u64(number, &mut self.buffer);
        Ok(())
    }

    pub fn write_vlq(&mut self, number: u64) -> (result: Result<(), NetworkError>)
        ensures
            result is Ok,
            final(self)@ == old(self)@ + vlq_bytes(number as nat, 4),
    {
        write_vlq(number, &mut self.buffer);
        Ok(())
    }

    pub fn write_string(&mut self, string: &str) -> (result: Result<(), NetworkError>)
        ensures
            result is Ok,
            final(self)@ == old(self)@ + string_bytes(string@),
    {
        write_string(string, &mut self.buffer);
        Ok(())
    }

    pub fn write_vector(&mut self, vector: &Vec<u8>) -> (result: Result<(), NetworkError>)
        ensures
            result is Ok,
            final(self)@ == old(self)@ + vector@,
    {
        let ghost start = self.buffer@;
        for i in 0..vector.len()
            invariant
                self.buffer@ == start + vector@.take(i as int),
        {
            self.buffer.push(vector[i]);
            proof {
                assert(vector@.take(i + 1) =~= vector@.take(i as int).push(vector@[i as int]));
            }
        }
        proof {
            assert(vector@.take(vector.len() as int) =~= vector@);
        }
        Ok(())
    }

    /// Encodes an object into the stream.
    pub fn encode<T: Encode>(&mut self, object: &T) -> (result: Result<(), NetworkError>)
        requires
            object.encodable(),
        ensures
            result is Ok,
            final(self)@ == old(self)@ + object.encoding(),
    {
        object.encode(&mut self.buffer);
        Ok(())
    }

    /// Hands out the bytes written so far and leaves the stream empty.
    pub fn export(&mut self) -> (result: Result<Vec<u8>, NetworkError>)
        ensures
            result matches Ok(bytes) && bytes@ == old(self)@,
            final(self)@ == Seq::<u8>::empty(),
    {
        let mut bytes = Vec::new();
        std::mem::swap(&mut bytes, &mut self.buffer);
        Ok(bytes)
    }

    /// Whether there is anything to export.
    pub fn can_export(&self) -> (result: bool)
        ensures
            result == (self@.len() > 0),
    {
        self.buffer.len() > 0
    }
}

/// Used to read data over the network. Data is imported in discrete chunks, and the stream reports when the end of a
/// chunk is reached.
#[derive(Debug)]
pub struct NetworkReadStream {
    buffer: Vec<u8>,
    position: StreamPosition,
}

/// The result of reading a `count`-byte little-endian number from the front of `s`: the number and the count, or the
/// end of the stream when fewer bytes remain.
pub open spec fn integer_parse(s: Seq<u8>, count: nat) -> Result<(nat, nat), NetworkError> {
    if s.len() >= count {
        Ok((le_value(s.take(count as int)), count))
    } else {
        Err(NetworkError::EndOfStream)
    }
}

/// The result of reading a variable length quantity from the front of `s`.
pub open spec fn vlq_parse(s: Seq<u8>) -> Result<(nat, nat), NetworkError> {
    if vlq_readable(s, 4) {
        Ok(vlq_decode(s, 4))
    } else {
        Err(NetworkError::EndOfStream)
    }
}

/// The result of reading a string whose length must lie within `minimum..=maximum` from the front of `s`: the length
/// as a variable length quantity, then one character per byte.
pub open spec fn string_safe_parse(s: Seq<u8>, minimum: nat, maximum: nat) -> Result<(Seq<char>, nat), NetworkError> {
    match vlq_parse(s) {
        Err(error) => Err(error),
        Ok((length, header)) => if length < minimum {
            Err(NetworkError::ReadStringSafe(ReadStringSafeError::TooShort))
        } else if length > maximum {
            Err(NetworkError::ReadStringSafe(ReadStringSafeError::TooLong))
        } else if s.len() < header + length {
            Err(NetworkError::EndOfStream)
        } else {
            Ok((s.subrange(header as int, (header + length) as int).map_values(|b: u8| b as char), header + length))
        },
    }
}

impl NetworkReadStream {
    /// The imported bytes.
    pub closed spec fn buffer(&self) -> Seq<u8> {
        self.buffer@
    }

    /// How many bytes have been read.
    pub closed spec fn position(&self) -> nat {
        self.position as nat
    }

    /// The bytes not read yet.
    pub open spec fn remaining(&self) -> Seq<u8> {
        self.buffer().skip(self.position() as int)
    }

    pub closed spec fn wf(&self) -> bool {
        self.position <= self.buffer@.len()
    }

    pub fn new() -> (stream: Self)
        ensures
            stream.wf(),
            stream.buffer() == Seq::<u8>::empty(),
            stream.position() == 0,
    {
        NetworkReadStream { buffer: Vec::new(), position: 0 }
    }

    /// Replaces the stream's contents with a new chunk of bytes and starts reading it from the beginning.
    pub fn import(&mut self, vector: Vec<u8>) -> (result: Result<(), NetworkError>)
        ensures
            result is Ok,
            final(self).wf(),
            final(self).buffer() == vector@,
            final(self).position() == 0,
    {
        self.buffer = vector;
        self.position = 0;
        Ok(())
    }

    /// A well-formed stream's position lies within its bytes.
    pub proof fn lemma_wf(&self)
        requires
            self.wf(),
        ensures
            self.position() <= self.buffer().len(),
    {
    }

    /// The current position.
    pub fn get_position(&self) -> (position: StreamPosition)
        ensures
            position == self.position(),
    {
        self.position
    }

    /// Whether every imported byte has been read.
    pub fn is_at_end(&self) -> (result: Result<bool, NetworkError>)
        requires
            self.wf(),
        ensures
            result == Ok::<bool, NetworkError>(self.remaining().len() == 0),
    {
        Ok(self.position >= self.buffer.len() as StreamPosition)
    }

    fn rest(&self) -> (rest: &[u8])
        requires
            self.wf(),
        ensures
            rest@ == self.remaining(),
    {
        let slice = self.buffer.as_slice();
        &slice[self.position as usize..slice.len()]
    }

    pub fn read_u8(&mut self) -> (result: Result<(u8, StreamPosition), NetworkError>)
        requires
            old(self).wf(),
        ensures
            final(self).wf(),
            final(self).buffer() == old(self).buffer(),
            match integer_parse(old(self).remaining(), 1) {
                Ok((value, length)) => result matches Ok((read, position)) && read == value as u8 && position as nat == final(self).position() && final(self).position() == old(self).position() + length,
                Err(error) => result == Err::<(u8, StreamPosition), NetworkError>(error) && *final(self) == *old(self),
            },
    {
        if self.position >= self.buffer.len() as u64 {
            return Err(NetworkError::EndOfStream);
        }
        let (byte, _) = read_u8(self.rest());
        proof {
            let s = old(self).remaining();
            assert(s.take(1).drop_first() =~= Seq::<u8>::empty());
            assert(le_value(s.take(1).drop_first()) == 0);
            assert(le_value(s.take(1)) == s[0] as nat);
        }
        self.position = self.position + 1;
        Ok((byte, self.position))
    }

    pub fn read_char(&mut self) -> (result: Result<(char, StreamPosition), NetworkError>)
        requires
            old(self).wf(),
        ensures
            final(self).wf(),
            final(self).buffer() == old(self).buffer(),
            match integer_parse(old(self).remaining(), 1) {
                Ok((value, length)) => result matches Ok((read, position)) && read == (value as u8) as char && position as nat == final(self).position() && final(self).position() == old(self).position() + length,
                Err(error) => result == Err::<(char, StreamPosition), NetworkError>(error) && *final(self) == *old(self),
            },
    {
        if self.position >= self.buffer.len() as u64 {
            return Err(NetworkError::EndOfStream);
        }
        let (character, _) = read_char(self.rest());
        proof {
            let s = old(self).remaining();
            assert(s.take(1).drop_first() =~= Seq::<u8>::empty());
            assert(le_value(s.take(1).drop_first()) == 0);
            assert(le_value(s.take(1)) == s[0] as nat);
        }
        self.position = self.position + 1;
        Ok((character, self.position))
    }

    pub fn read_u16(&mut self) -> (result: Result<(u16, StreamPosition), NetworkError>)
        requires
            old(self).wf(),
        ensures
            final(self).wf(),
            final(self).buffer() == old(self).buffer(),
            match integer_parse(old(self).remaining(), 2) {
                Ok((value, length)) => result matches Ok((read, position)) && read == value as u16 && position as nat == final(self).position() && final(self).position() == old(self).position() + length,
                Err(error) => result == Err::<(u16, StreamPosition), NetworkError>(error) && *final(self) == *old(self),
            },
    {
        if self.buffer.len() as u64 - self.position < 2 {
            return Err(NetworkError::EndOfStream);
        }
        let (number, _) = read_u16(self.rest());
        self.position = self.position + 2;
        Ok((number, self.position))
    }

    pub fn read_u32(&mut self) -> (result: Result<(u32, StreamPosition), NetworkError>)
        requires
            old(self).wf(),
        ensures
            final(self).wf(),
            final(self).buffer() == old(self).buffer(),
            match integer_parse(old(self).remaining(), 4) {
                Ok((value, length)) => result matches Ok((read, position)) && read == value as u32 && position as nat == final(self).position() && final(self).position() == old(self).position() + length,
                Err(error) => result == Err::<(u32, StreamPosition), NetworkError>(error) && *final(self) == *old(self),
            },
    {
        if self.buffer.len() as u64 - self.position < 4 {
            return Err(NetworkError::EndOfStream);
        }
        let (number, _) = read_u32(self.rest());
        self.position = self.position + 4;
        Ok((number, self.position))
    }

    pub fn read_u64(&mut self) -> (result: Result<(u64, StreamPosition), NetworkError>)
        requires
            old(self).wf(),
        ensures
            final(self).wf(),
            final(self).buffer() == old(self).buffer(),
            match integer_parse(old(self).remaining(), 8) {
                Ok((value, length)) => result matches Ok((read, position)) && read == value as u64 && position as nat == final(self).position() && final(self).position() == old(self).position() + length,
                Err(error) => result == Err::<(u64, StreamPosition), NetworkError>(error) && *final(self) == *old(self),
            },
    {
        if self.buffer.len() as u64 - self.position < 8 {
            return Err(NetworkError::EndOfStream);
        }
        let (number, _) = read_u64(self.rest());
        self.position = self.position + 8;
        Ok((number, self.position))
    }

    pub fn read_vlq(&mut self) -> (result: Result<(u64, StreamPosition), NetworkError>)
        requires
            old(self).wf(),
        ensures
            final(self).wf(),
            final(self).buffer() == old(self).buffer(),
            match vlq_parse(old(self).remaining()) {
                Ok((value, length)) => result matches Ok((read, position)) && read == value as u64 && position as nat == final(self).position() && final(self).position() == old(self).position() + length,
                Err(error) => result == Err::<(u64, StreamPosition), NetworkError>(error) && *final(self) == *old(self),
            },
    {
        let rest = self.rest();
        if !vlq_available(rest) {
            return Err(NetworkError::EndOfStream);
        }
        let ghost s = rest@;
        let (number, after) = read_vlq(rest);
        proof {
            lemma_vlq_parse_fits(s);
            assert(after@ == s.skip(vlq_decode(s, 4).1 as int));
            assert(after.len() == s.len() - vlq_decode(s, 4).1);
            assert(s.len() == self.buffer@.len() - self.position);
        }
        let length_now = self.buffer.len();
        assert(self.position + (rest.len() - after.len()) <= length_now);
        self.position = self.position + (rest.len() - after.len()) as u64;
        Ok((number, self.position))
    }

    /// Reads a length-prefixed string whose length must lie within `minimum_length..=maximum_length`.
    pub fn read_string_safe(&mut self, minimum_length: u64, maximum_length: u64) -> (result: Result<
        (String, StreamPosition),
        NetworkError,
    >)
        requires
            old(self).wf(),
        ensures
            final(self).wf(),
            final(self).buffer() == old(self).buffer(),
            match string_safe_parse(old(self).remaining(), minimum_length as nat, maximum_length as nat) {
                Ok((value, length)) => result matches Ok((string, position)) && string@ == value && position
                    == final(self).position() && final(self).position() == old(self).position() + length,
                Err(error) => result == Err::<(String, StreamPosition), NetworkError>(error),
            },
    {
        let ghost s = old(self).remaining();
        proof {
            lemma_vlq_parse_fits(s);
        }
        let (length, _) = match self.read_vlq() {
            Ok(pair) => pair,
            Err(error) => return Err(error),
        };
        let ghost header = vlq_decode(s, 4).1;
        if length < minimum_length {
            return Err(NetworkError::ReadStringSafe(ReadStringSafeError::TooShort));
        }
        if length > maximum_length {
            return Err(NetworkError::ReadStringSafe(ReadStringSafeError::TooLong));
        }
        if (self.buffer.len() as u64 - self.position) < length {
            proof {
                assert(self.remaining() =~= s.skip(header as int));
            }
            return Err(NetworkError::EndOfStream);
        }
        let ghost body = self.remaining();
        proof {
            assert(body =~= s.skip(header as int));
        }
        let mut output = String::new();
        let mut i: u64 = 0;
        while i < length
            invariant
                self.wf(),
                self.buffer() == old(self).buffer(),
                i <= length,
                body.len() >= length,
                self.remaining() == body.skip(i as int),
                output@ == body.take(i as int).map_values(|b: u8| b as char),
            decreases length - i,
        {
            let ghost before = self.remaining();
            let ghost old_output = output@;
            assert(before.len() > 0);
            let length_now = self.buffer.len();
            assert(self.position < length_now);
            let p = self.position as usize;
            assert(p == self.position);
            let character = self.buffer[p] as char;
            proof {
                assert(before[0] == body[i as int]);
                assert(character == body[i as int] as char);
            }
            self.position = self.position + 1;
            string_push(&mut output, character);
            proof {
                assert(body.take(i + 1) =~= body.take(i as int).push(body[i as int]));
                assert(body.take(i + 1).map_values(|b: u8| b as char) =~= body.take(i as int).map_values(
                    |b: u8| b as char,
                ).push(body[i as int] as char));
                assert(output@ =~= body.take(i + 1).map_values(|b: u8| b as char));
                assert(self.remaining() =~= before.drop_first());
                assert(before.drop_first() =~= body.skip(i + 1));
            }
            i = i + 1;
        }
        proof {
            assert(body.take(length as int) =~= s.subrange(header as int, (header + length) as int));
        }
        Ok((output, self.position))
    }

    /// Decodes an object from the stream.
    pub fn decode<T: StreamDecode>(&mut self) -> (result: Result<(T, StreamPosition), NetworkError>)
        requires
            old(self).wf(),
            T::decodable(old(self).remaining()),
        ensures
            final(self).wf(),
            final(self).buffer() == old(self).buffer(),
            decoded(old(self).remaining(), old(self).position(), final(self).position(), result),
    {
        T::decode(self)
    }
}

/// Whether a decoder's result agrees with what `T::parse` says of the bytes it read from: on success a value whose view
/// is the parsed one and the position after it, `start` advanced by the parsed length; on failure the parsed error.
pub open spec fn decoded<T: StreamDecode>(
    s: Seq<u8>,
    start: nat,
    end: nat,
    result: Result<(T, StreamPosition), NetworkError>,
) -> bool {
    match T::parse(s) {
        Ok((value, length)) => result matches Ok((decoded, position)) && decoded@ == value && position == end
            && end == start + length,
        Err(error) => result matches Err(emitted) && emitted == error,
    }
}

/// Decode an object from a network stream.
pub trait StreamDecode: Sized + View {
    /// Whether decoding the front of `s` runs to a result (some encodings are reserved and not decodable yet).
    spec fn decodable(s: Seq<u8>) -> bool;

    /// The result of decoding the front of `s`: the value's view and how many bytes it took, or the error emitted.
    spec fn parse(s: Seq<u8>) -> Result<(<Self as View>::V, nat), NetworkError>;

    fn decode(stream: &mut NetworkReadStream) -> (result: Result<(Self, StreamPosition), NetworkError>)
        requires
            old(stream).wf(),
            Self::decodable(old(stream).remaining()),
        ensures
            final(stream).wf(),
            final(stream).buffer() == old(stream).buffer(),
            match Self::parse(old(stream).remaining()) {
                Ok((value, length)) => result matches Ok((decoded, position)) && decoded@ == value && position
                    == final(stream).position() && final(stream).position() == old(stream).position() + length,
                Err(error) => result matches Err(emitted) && emitted == error,
            },
    ;
}

/// Whether a variable length quantity can be read from the front of `vector`.
fn vlq_available(vector: &[u8]) -> (result: bool)
    ensures
        result == vlq_readable(vector@, 4),
{
    let mut offset: usize = 0;
    let mut i: usize = 0;
    assert(vector@.skip(0) =~= vector@);
    while i < 4
        invariant
            i <= 4,
            offset == 2 * i,
            offset <= vector.len() + 2,
            i < 4 ==> offset <= vector.len(),
            vlq_readable(vector@, 4) == vlq_readable(vector@.skip(offset as int), (4 - i) as nat),
        decreases 4 - i,
    {
        let ghost s = vector@.skip(offset as int);
        if vector.len() - offset < 2 {
            return false;
        }
        let group = vector[offset] as u64 + 256 * (vector[offset + 1] as u64);
        proof {
            let t = s.take(2);
            assert(t[0] == vector@[offset as int]);
            assert(t[1] == vector@[offset + 1]);
            assert(t.drop_first().drop_first() =~= Seq::<u8>::empty());
            assert(le_value(t.drop_first().drop_first()) == 0);
            assert(le_value(t.drop_first()) == t[1] as nat);
            assert(le_value(t) == group);
            assert(s.skip(2) =~= vector@.skip(offset + 2));
        }
        if group < 32768 || i == 3 {
            return true;
        }
        offset = offset + 2;
        i = i + 1;
    }
    true
}

proof fn lemma_vlq_decode_bounds(s: Seq<u8>, left: nat)
    requires
        vlq_readable(s, left),
    ensures
        vlq_decode(s, left).1 <= s.len(),
        vlq_decode(s, left).1 <= 2 * left,
        vlq_decode(s, left).0 < crate::carton::stream::group_pow(left),
    decreases left,
{
    if left > 0 {
        crate::carton::stream::lemma_le_value_bound(s.take(2));
        crate::carton::stream::lemma_byte_pow_8();
        if le_value(s.take(2)) >= 32768 && left > 1 {
            lemma_vlq_decode_bounds(s.skip(2), (left - 1) as nat);
            let r = vlq_decode(s.skip(2), (left - 1) as nat).0;
            let p = crate::carton::stream::group_pow((left - 1) as nat);
            assert(32768 * r <= 32768 * (p - 1)) by (nonlinear_arith)
                requires
                    r < p,
            ;
        } else {
            assert(crate::carton::stream::group_pow(left) == 32768 * crate::carton::stream::group_pow((left - 1) as nat));
            lemma_group_pow_positive((left - 1) as nat);
        }
    }
}

proof fn lemma_vlq_parse_fits(s: Seq<u8>)
    ensures
        vlq_parse(s) matches Ok((value, length)) ==> value < 0x1000_0000_0000_0000 && length <= 8 && length
            <= s.len(),
{
    if vlq_readable(s, 4) {
        lemma_vlq_decode_bounds(s, 4);
        reveal_with_fuel(crate::carton::stream::group_pow, 5);
        assert(crate::carton::stream::group_pow(4) == 0x1000_0000_0000_0000);
    }
}

/// After reading `length` bytes, what remains is what remained before with those bytes dropped.
pub proof fn lemma_advance(before: NetworkReadStream, after: NetworkReadStream, length: nat)
    requires
        before.wf(),
        after.wf(),
        after.buffer() == before.buffer(),
        after.position() == before.position() + length,
    ensures
        after.remaining() == before.remaining().skip(length as int),
        length <= before.remaining().len(),
{
    assert(after.remaining() =~= before.remaining().skip(length as int));
}

/// A number read from `count` bytes is below `256^count`.
pub proof fn lemma_integer_parse_bound(s: Seq<u8>, count: nat)
    ensures
        integer_parse(s, count) matches Ok((value, length)) ==> value < crate::carton::stream::byte_pow(count)
            && length == count,
{
    if s.len() >= count {
        crate::carton::stream::lemma_le_value_bound(s.take(count as int));
    }
}

proof fn lemma_group_pow_positive(count: nat)
    ensures
        crate::carton::stream::group_pow(count) >= 1,
    decreases count,
{
    if count > 0 {
        lemma_group_pow_positive((count - 1) as nat);
    }
}

} // verus!
