use vstd::prelude::*;

use super::error::CartonError;
use super::stream::reading::{read_u16, read_u32, read_u64, read_vlq};
use super::stream::writing::{write_u8, write_vlq};
use super::stream::{le_value, vlq_bytes, vlq_decode, vlq_max, vlq_readable, vlq_roundtrip};

verus! {

/// A position within a stream, in bytes.
pub type StreamPosition = u64;

/// Why a finished carton could not be handed over as a file: its bytes could not be flushed to disk, or there was no
/// file to hand over.
#[derive(Clone, Copy, Debug, PartialEq, Eq, Structural)]
pub enum FileStreamError {
    Flush,
    NoneFile,
}

/// The `count` bytes a file read at `cursor` fills a buffer with: the file's bytes from the cursor on, then zeros past
/// the end of the file.
pub open spec fn window(data: Seq<u8>, cursor: nat, count: nat) -> Seq<u8> {
    Seq::new(count, |i: int| if cursor + i < data.len() { data[cursor + i] } else { 0u8 })
}

/// Where the cursor stands after reading `count` bytes at `cursor`: it moves over the bytes that exist and stops at
/// the end of the file; a cursor past the end does not move.
pub open spec fn advance(length: nat, cursor: nat, count: nat) -> nat {
    if cursor >= length {
        cursor
    } else if cursor + count <= length {
        cursor + count
    } else {
        length
    }
}

/// Reading `first` then `second` bytes fills the same bytes, and leaves the cursor at the same place, as reading
/// `first + second` bytes at once.
pub proof fn lemma_window_split(data: Seq<u8>, cursor: nat, first: nat, second: nat)
    ensures
        window(data, cursor, first + second) == window(data, cursor, first) + window(
            data,
            advance(data.len(), cursor, first),
            second,
        ),
        advance(data.len(), advance(data.len(), cursor, first), second) == advance(data.len(), cursor, first + second),
{
    assert(window(data, cursor, first + second) =~= window(data, cursor, first) + window(
        data,
        advance(data.len(), cursor, first),
        second,
    ));
}

/// The value and byte count of a variable length quantity read from a file at `cursor`.
pub open spec fn vlq_at(data: Seq<u8>, cursor: nat) -> (nat, nat) {
    vlq_decode(window(data, cursor, 8), 4)
}

/// Eight bytes or more always hold four 2-byte groups.
pub proof fn lemma_vlq_readable_long(s: Seq<u8>, left: nat)
    requires
        s.len() >= 2 * left,
    ensures
        vlq_readable(s, left),
    decreases left,
{
    if left > 0 {
        lemma_vlq_readable_long(s.skip(2), (left - 1) as nat);
    }
}

/// A variable length quantity decoder reading at most `left` groups reads at most `2 * left` bytes.
pub proof fn lemma_vlq_decode_length(s: Seq<u8>, left: nat)
    ensures
        vlq_decode(s, left).1 <= 2 * left,
    decreases left,
{
    if left > 0 {
        lemma_vlq_decode_length(s.skip(2), (left - 1) as nat);
    }
}

/// Converts bytes into a `String` (`String::from_utf8`).
#[verifier::external_body]
pub(crate) fn string_from_utf8(bytes: Vec<u8>) -> (result: Result<String, std::string::FromUtf8Error>)
    ensures
        result is Ok <==> vstd::utf8::valid_utf8(bytes@),
        result matches Ok(string) ==> string@ == vstd::utf8::decode_utf8(bytes@),
{
    String::from_utf8(bytes)
}

/// The `count` bytes a read at `cursor` fills a buffer with.
pub fn window_bytes(data: &Vec<u8>, cursor: u64, count: u64) -> (bytes: Vec<u8>)
    ensures
        bytes@ == window(data@, cursor as nat, count as nat),
{
    let mut bytes: Vec<u8> = Vec::new();
    let length = data.len() as u64;
    let mut i: u64 = 0;
    while i < count
        invariant
            length == data@.len(),
            i <= count,
            bytes@ == window(data@, cursor as nat, i as nat),
        decreases count - i,
    {
        let byte = if cursor < length && i < length - cursor {
            let len_now = data.len();
            assert(cursor + i < len_now);
            let index = (cursor + i) as usize;
            assert(index == cursor + i);
            data[index]
        } else {
            0
        };
        proof {
            assert(byte == window(data@, cursor as nat, (i + 1) as nat)[i as int]);
        }
        bytes.push(byte);
        i = i + 1;
        proof {
            assert(bytes@ =~= window(data@, cursor as nat, i as nat));
        }
    }
    bytes
}

/// The cursor after a read of `count` bytes at `cursor`.
pub fn advanced(length: usize, cursor: u64, count: u64) -> (next: u64)
    ensures
        next == advance(length as nat, cursor as nat, count as nat),
{
    let length = length as u64;
    if cursor < length {
        if count <= length - cursor {
            cursor + count
        } else {
            length
        }
    } else {
        cursor
    }
}

/// Reads a carton file's bytes. Reads past the end of the file fill their buffers with zeros and leave the cursor at
/// the end, as reading a file does.
#[derive(Debug)]
pub struct FileReadStream {
    data: Vec<u8>,
    position: StreamPosition,
}

impl FileReadStream {
    /// The file's bytes.
    pub closed spec fn data(&self) -> Seq<u8> {
        self.data@
    }

    /// The cursor.
    pub closed spec fn cursor(&self) -> nat {
        self.position as nat
    }

    pub fn new(data: Vec<u8>) -> (stream: Self)
        ensures
            stream.data() == data@,
            stream.cursor() == 0,
    {
        FileReadStream { data, position: 0 }
    }

    /// Reads `count` bytes at the cursor.
    pub fn read_window(&mut self, count: u64) -> (bytes: Vec<u8>)
        ensures
            bytes@ == window(old(self).data(), old(self).cursor(), count as nat),
            final(self).data() == old(self).data(),
            final(self).cursor() == advance(old(self).data().len(), old(self).cursor(), count as nat),
    {
        let bytes = window_bytes(&self.data, self.position, count);
        self.position = advanced(self.data.len(), self.position, count);
        bytes
    }

    pub fn read_u8(&mut self) -> (result: (u8, StreamPosition))
        ensures
            result.0 == window(old(self).data(), old(self).cursor(), 1)[0],
            result.1 == final(self).cursor(),
            final(self).data() == old(self).data(),
            final(self).cursor() == advance(old(self).data().len(), old(self).cursor(), 1),
    {
        let bytes = self.read_window(1);
        (bytes[0], self.position)
    }

    pub fn read_char(&mut self) -> (result: (char, StreamPosition))
        ensures
            result.0 == window(old(self).data(), old(self).cursor(), 1)[0] as char,
            result.1 == final(self).cursor(),
            final(self).data() == old(self).data(),
            final(self).cursor() == advance(old(self).data().len(), old(self).cursor(), 1),
    {
        let bytes = self.read_window(1);
        (bytes[0] as char, self.position)
    }

    pub fn read_u16(&mut self) -> (result: (u16, StreamPosition))
        ensures
            result.0 == le_value(window(old(self).data(), old(self).cursor(), 2)),
            result.1 == final(self).cursor(),
            final(self).data() == old(self).data(),
            final(self).cursor() == advance(old(self).data().len(), old(self).cursor(), 2),
    {
        let bytes = self.read_window(2);
        let (number, _) = read_u16(bytes.as_slice());
        proof {
            assert(bytes@.take(2) =~= bytes@);
        }
        (number, self.position)
    }

    pub fn read_u32(&mut self) -> (result: (u32, StreamPosition))
        ensures
            result.0 == le_value(window(old(self).data(), old(self).cursor(), 4)),
            result.1 == final(self).cursor(),
            final(self).data() == old(self).data(),
            final(self).cursor() == advance(old(self).data().len(), old(self).cursor(), 4),
    {
        let bytes = self.read_window(4);
        let (number, _) = read_u32(bytes.as_slice());
        proof {
            assert(bytes@.take(4) =~= bytes@);
        }
        (number, self.position)
    }

    pub fn read_u64(&mut self) -> (result: (u64, StreamPosition))
        ensures
            result.0 == le_value(window(old(self).data(), old(self).cursor(), 8)),
            result.1 == final(self).cursor(),
            final(self).data() == old(self).data(),
            final(self).cursor() == advance(old(self).data().len(), old(self).cursor(), 8),
    {
        let bytes = self.read_window(8);
        let (number, _) = read_u64(bytes.as_slice());
        proof {
            assert(bytes@.take(8) =~= bytes@);
        }
        (number, self.position)
    }

    /// The bytes a read of `count` bytes at the cursor would fill, without moving the cursor.
    fn look_ahead(&self, count: u64) -> (bytes: Vec<u8>)
        ensures
            bytes@ == window(self.data(), self.cursor(), count as nat),
    {
        window_bytes(&self.data, self.position, count)
    }

    /// Moves the cursor over `count` bytes, stopping at the end of the file.
    fn skip_bytes(&mut self, count: u64)
        ensures
            final(self).data() == old(self).data(),
            final(self).cursor() == advance(old(self).data().len(), old(self).cursor(), count as nat),
    {
        self.position = advanced(self.data.len(), self.position, count);
    }

    /// Reads a variable length quantity: 2-byte groups holding 15 bits each, low bits first, while the 16th bit is
    /// set, at most four groups.
    pub fn read_vlq(&mut self) -> (result: (u64, StreamPosition))
        ensures
            result.0 == vlq_at(old(self).data(), old(self).cursor()).0,
            result.1 == final(self).cursor(),
            final(self).data() == old(self).data(),
            final(self).cursor() == advance(
                old(self).data().len(),
                old(self).cursor(),
                vlq_at(old(self).data(), old(self).cursor()).1,
            ),
    {
        let bytes = self.look_ahead(8);
        proof {
            lemma_vlq_readable_long(bytes@, 4);
        }
        let (number, rest) = read_vlq(bytes.as_slice());
        proof {
            lemma_vlq_decode_length(bytes@, 4);
        }
        let consumed = (8 - rest.len()) as u64;
        self.skip_bytes(consumed);
        (number, self.position)
    }

    /// Reads a string: its length in bytes as a variable length quantity, then its UTF-8 bytes.
    pub fn read_string(&mut self) -> (result: Result<(String, StreamPosition), CartonError>)
        ensures
            final(self).data() == old(self).data(),
            ({
                let (length, header) = vlq_at(old(self).data(), old(self).cursor());
                let body_start = advance(old(self).data().len(), old(self).cursor(), header);
                let bytes = window(old(self).data(), body_start, length);
                &&& final(self).cursor() == advance(old(self).data().len(), body_start, length)
                &&& vstd::utf8::valid_utf8(bytes) ==> (result matches Ok((string, position)) && string@
                    == vstd::utf8::decode_utf8(bytes) && position == final(self).cursor())
                &&& !vstd::utf8::valid_utf8(bytes) ==> result matches Err(CartonError::FromUtf8(_))
            }),
    {
        let (length, _) = self.read_vlq();
        let buffer = self.read_window(length);
        match string_from_utf8(buffer) {
            Ok(string) => Ok((string, self.position)),
            Err(error) => Err(CartonError::FromUtf8(error)),
        }
    }

    /// Reads `length` bytes.
    pub fn read_vector(&mut self, length: usize) -> (result: (Vec<u8>, StreamPosition))
        ensures
            result.0@ == window(old(self).data(), old(self).cursor(), length as nat),
            result.1 == final(self).cursor(),
            final(self).data() == old(self).data(),
            final(self).cursor() == advance(old(self).data().len(), old(self).cursor(), length as nat),
    {
        let bytes = self.read_window(length as u64);
        (bytes, self.position)
    }

    /// Reads the byte at the cursor without moving it. Past the end of the file, no byte is read, the result is zero,
    /// and the cursor steps back by one.
    pub fn peek(&mut self) -> (byte: u8)
        requires
            old(self).cursor() < old(self).data().len() || old(self).cursor() > 0,
        ensures
            byte == window(old(self).data(), old(self).cursor(), 1)[0],
            final(self).data() == old(self).data(),
            final(self).cursor() == if old(self).cursor() < old(self).data().len() {
                old(self).cursor()
            } else {
                (old(self).cursor() - 1) as nat
            },
    {
        let bytes = self.look_ahead(1);
        if self.position >= self.data.len() as u64 {
            self.position = self.position - 1;
        }
        bytes[0]
    }

    /// Moves the cursor.
    pub fn seek(&mut self, position: StreamPosition)
        ensures
            final(self).data() == old(self).data(),
            final(self).cursor() == position,
    {
        self.position = position;
    }

    pub fn get_position(&self) -> (position: StreamPosition)
        ensures
            position == self.cursor(),
    {
        self.position
    }

    /// How many bytes the file has.
    pub fn data_len(&self) -> (length: u64)
        ensures
            length == self.data().len(),
    {
        self.data.len() as u64
    }

    /// Whether the cursor is at or past the end of the file.
    pub fn is_at_end(&self) -> (result: bool)
        ensures
            result == (self.cursor() >= self.data().len()),
    {
        self.position >= self.data.len() as u64
    }
}

/// The bytes that encode a string in a carton file: its UTF-8 length as a variable length quantity, then its UTF-8
/// bytes.
pub open spec fn utf8_string_bytes(chars: Seq<char>) -> Seq<u8> {
    vlq_bytes(vstd::utf8::encode_utf8(chars).len(), 4) + vstd::utf8::encode_utf8(chars)
}

/// Where `count` bytes lie inside the file at `cursor`, reading them fills exactly those bytes and moves the cursor
/// over them.
pub proof fn lemma_window_inside(data: Seq<u8>, cursor: nat, count: nat)
    requires
        cursor + count <= data.len(),
    ensures
        window(data, cursor, count) == data.subrange(cursor as int, (cursor + count) as int),
        advance(data.len(), cursor, count) == cursor + count,
{
    assert(window(data, cursor, count) =~= data.subrange(cursor as int, (cursor + count) as int));
}

/// Bytes that lie within bytes written at `start` lie in the file at the same offset from `start`.
pub proof fn lemma_subrange_within(data: Seq<u8>, start: nat, outer: Seq<u8>, offset: nat, inner: Seq<u8>)
    requires
        start + outer.len() <= data.len(),
        data.subrange(start as int, (start + outer.len()) as int) == outer,
        offset + inner.len() <= outer.len(),
        outer.subrange(offset as int, (offset + inner.len()) as int) == inner,
    ensures
        start + offset + inner.len() <= data.len(),
        data.subrange((start + offset) as int, (start + offset + inner.len()) as int) == inner,
{
    assert(data.subrange((start + offset) as int, (start + offset + inner.len()) as int) =~= inner) by {
        assert forall|i: int| 0 <= i < inner.len() implies data[start + offset + i] == inner[i] by {
            assert(data.subrange(start as int, (start + outer.len()) as int)[offset + i] == outer[offset + i]);
            assert(outer.subrange(offset as int, (offset + inner.len()) as int)[i] == outer[offset + i]);
        }
    }
}

/// Reading a variable length quantity where one was written gives back the number, below `2^60`, and the count of
/// bytes written.
pub proof fn vlq_at_roundtrip(data: Seq<u8>, cursor: nat, number: nat)
    requires
        number < vlq_max(),
        cursor + vlq_bytes(number, 4).len() <= data.len(),
        data.subrange(cursor as int, (cursor + vlq_bytes(number, 4).len()) as int) == vlq_bytes(number, 4),
    ensures
        vlq_at(data, cursor) == (number, vlq_bytes(number, 4).len()),
        advance(data.len(), cursor, vlq_bytes(number, 4).len()) == cursor + vlq_bytes(number, 4).len(),
{
    let prefix = vlq_bytes(number, 4);
    let k = prefix.len();
    vlq_roundtrip(number, Seq::empty());
    lemma_vlq_decode_length(prefix + Seq::<u8>::empty(), 4);
    assert(k <= 8);
    lemma_window_split(data, cursor, k, (8 - k) as nat);
    lemma_window_inside(data, cursor, k);
    let tail = window(data, cursor + k, (8 - k) as nat);
    vlq_roundtrip(number, tail);
    assert(window(data, cursor, 8) == prefix + tail);
}

/// Reading a string where one was written gives back its characters and leaves the cursor right after it, for a
/// string shorter than `2^60` bytes.
pub proof fn utf8_string_roundtrip(data: Seq<u8>, cursor: nat, chars: Seq<char>)
    requires
        cursor + utf8_string_bytes(chars).len() <= data.len(),
        data.subrange(cursor as int, (cursor + utf8_string_bytes(chars).len()) as int) == utf8_string_bytes(chars),
        vstd::utf8::encode_utf8(chars).len() < vlq_max(),
    ensures
        ({
            let (length, header) = vlq_at(data, cursor);
            let body = advance(data.len(), cursor, header);
            let bytes = window(data, body, length);
            &&& bytes == vstd::utf8::encode_utf8(chars)
            &&& vstd::utf8::valid_utf8(bytes)
            &&& vstd::utf8::decode_utf8(bytes) == chars
            &&& advance(data.len(), body, length) == cursor + utf8_string_bytes(chars).len()
        }),
{
    let encoded = vstd::utf8::encode_utf8(chars);
    let n = encoded.len();
    let prefix = vlq_bytes(n, 4);
    let whole = utf8_string_bytes(chars);
    let k = prefix.len();
    assert(data.subrange(cursor as int, (cursor + k) as int) =~= whole.subrange(0, k as int));
    assert(whole.subrange(0, k as int) =~= prefix);
    vlq_at_roundtrip(data, cursor, n);
    lemma_window_inside(data, cursor + k, n);
    assert(data.subrange((cursor + k) as int, (cursor + k + n) as int) =~= whole.subrange(k as int, (k + n) as int));
    assert(whole.subrange(k as int, (k + n) as int) =~= encoded);
    vstd::utf8::encode_utf8_valid_utf8(chars);
    vstd::utf8::encode_utf8_decode_utf8(chars);
}

/// Writes a string: its length in bytes as a variable length quantity, then its UTF-8 bytes.
pub fn write_utf8_string(string: &str, vector: &mut Vec<u8>)
    ensures
        final(vector)@ == old(vector)@ + utf8_string_bytes(string@),
{
    let bytes = string.as_bytes();
    write_vlq(bytes.len() as u64, vector);
    write_vector(bytes, vector);
}

/// Writes bytes as they are.
pub fn write_vector(bytes: &[u8], vector: &mut Vec<u8>)
    ensures
        final(vector)@ == old(vector)@ + bytes@,
{
    let ghost start = vector@;
    for i in 0..bytes.len()
        invariant
            vector@ == start + bytes@.take(i as int),
    {
        write_u8(bytes[i], vector);
        proof {
            assert(bytes@.take(i + 1) =~= bytes@.take(i as int).push(bytes@[i as int]));
        }
    }
    proof {
        assert(bytes@.take(bytes@.len() as int) =~= bytes@);
    }
}

} // verus!
