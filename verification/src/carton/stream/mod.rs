pub mod reading;
pub mod writing;

use vstd::prelude::*;

use self::writing::{string_bytes, utf8_len};

verus! {

/// Byte stream for reading/writing data formats into a file, over the network, etc. Streams do not describe the data
/// format used, and instead facilitate the transport of the format.
#[derive(Debug)]
pub struct Stream {
    data: Vec<u8>,
}

impl View for Stream {
    type V = Seq<u8>;

    closed spec fn view(&self) -> Seq<u8> {
        self.data@
    }
}

impl Default for Stream {
    fn default() -> (stream: Self)
        ensures
            stream@ == Seq::<u8>::empty(),
    {
        Stream { data: Vec::new() }
    }
}

impl Stream {
    /// Use the `EncodeMut` trait to encode an object into the stream.
    pub fn encode_mut<T: EncodeMut>(&mut self, object: &mut T)
        requires
            old(object).encodable_mut(),
        ensures
            final(self)@ == old(self)@ + old(object).encoding_mut(),
            final(object).encoded_from(old(object)),
    {
        object.encode_mut(&mut self.data);
    }

    /// Use the `Encode` trait to encode an object into the stream.
    pub fn encode<T: Encode>(&mut self, object: &T)
        requires
            object.encodable(),
        ensures
            final(self)@ == old(self)@ + object.encoding(),
    {
        object.encode(&mut self.data);
    }

    /// Returns the stream's buffer.
    pub fn get_buffer(&self) -> (buffer: &Vec<u8>)
        ensures
            buffer@ == self@,
    {
        &self.data
    }

    /// Returns the stream's buffer.
    pub fn get_buffer_mut(&mut self) -> (buffer: &mut Vec<u8>)
        ensures
            buffer@ == old(self)@,
            final(self)@ == final(buffer)@,
    {
        &mut self.data
    }
}

/// Encode an object into a byte vector. Object can mutate itself.
pub trait EncodeMut {
    /// Whether the object can be encoded.
    spec fn encodable_mut(&self) -> bool;

    /// The bytes that encoding the object appends.
    spec fn encoding_mut(&self) -> Seq<u8>;

    /// How the object after encoding relates to the object before.
    spec fn encoded_from(&self, before: &Self) -> bool;

    fn encode_mut(&mut self, vector: &mut Vec<u8>)
        requires
            old(self).encodable_mut(),
        ensures
            final(vector)@ == old(vector)@ + old(self).encoding_mut(),
            final(self).encoded_from(old(self)),
    ;
}

/// Encode an object into a byte vector.
pub trait Encode {
    /// Whether the object can be encoded.
    spec fn encodable(&self) -> bool;

    /// The bytes that encoding the object appends.
    spec fn encoding(&self) -> Seq<u8>;

    fn encode(&self, vector: &mut Vec<u8>)
        requires
            self.encodable(),
        ensures
            final(vector)@ == old(vector)@ + self.encoding(),
    ;
}

/// Decode an object from a byte slice. Returns the deserialized object along with how many bytes were read.
pub trait Decode: Sized {
    /// Whether an object can be decoded from the front of `s`.
    spec fn decodable(s: Seq<u8>) -> bool;

    /// Whether decoding the front of `s` gives `value` and leaves `rest`.
    spec fn decodes_to(s: Seq<u8>, value: Self, rest: Seq<u8>) -> bool;

    fn decode(vector: &[u8]) -> (result: (Self, &[u8]))
        requires
            Self::decodable(vector@),
        ensures
            Self::decodes_to(vector@, result.0, result.1@),
    ;
}

/// The little-endian encoding of `n` in `count` bytes (higher bytes of `n` are dropped).
pub open spec fn le_bytes(n: nat, count: nat) -> Seq<u8>
    decreases count,
{
    if count == 0 {
        Seq::empty()
    } else {
        seq![(n % 256) as u8] + le_bytes(n / 256, (count - 1) as nat)
    }
}

/// The number that a little-endian byte sequence denotes.
pub open spec fn le_value(s: Seq<u8>) -> nat
    decreases s.len(),
{
    if s.len() == 0 {
        0
    } else {
        s[0] as nat + 256 * le_value(s.drop_first())
    }
}

/// `256` to the power `count`.
pub open spec fn byte_pow(count: nat) -> nat
    decreases count,
{
    if count == 0 {
        1
    } else {
        256 * byte_pow((count - 1) as nat)
    }
}

pub proof fn lemma_le_bytes_len(n: nat, count: nat)
    ensures
        le_bytes(n, count).len() == count,
    decreases count,
{
    if count > 0 {
        lemma_le_bytes_len(n / 256, (count - 1) as nat);
    }
}

/// Decoding a little-endian encoding gives back the number, modulo the width.
pub proof fn lemma_le_value_of_bytes(n: nat, count: nat)
    ensures
        le_value(le_bytes(n, count)) == n % byte_pow(count),
    decreases count,
{
    if count > 0 {
        let rest = le_bytes(n / 256, (count - 1) as nat);
        lemma_le_value_of_bytes(n / 256, (count - 1) as nat);
        assert(le_bytes(n, count).drop_first() =~= rest);
        let p = byte_pow((count - 1) as nat);
        lemma_byte_pow_positive((count - 1) as nat);
        assert((n % 256) + 256 * ((n / 256) % p) == n % (256 * p)) by (nonlinear_arith)
            requires
                p > 0,
        {
            vstd::arithmetic::div_mod::lemma_breakdown(n as int, 256, p as int);
        }
    }
}

/// Eight bytes hold exactly the `u64` range.
pub proof fn lemma_byte_pow_8()
    ensures
        byte_pow(8) == u64::MAX + 1,
        byte_pow(4) == u32::MAX + 1,
        byte_pow(2) == u16::MAX + 1,
{
    assert(byte_pow(0) == 1);
    assert(byte_pow(1) == 256);
    assert(byte_pow(2) == 65536);
    assert(byte_pow(3) == 16777216);
    assert(byte_pow(4) == 4294967296);
    assert(byte_pow(5) == 1099511627776);
    assert(byte_pow(6) == 281474976710656);
    assert(byte_pow(7) == 72057594037927936);
    assert(byte_pow(8) == 18446744073709551616);
}

pub proof fn lemma_byte_pow_positive(count: nat)
    ensures
        byte_pow(count) > 0,
    decreases count,
{
    if count > 0 {
        lemma_byte_pow_positive((count - 1) as nat);
    }
}

/// Re-encoding the value of a byte sequence gives back the sequence.
pub proof fn lemma_le_bytes_of_value(s: Seq<u8>)
    ensures
        le_bytes(le_value(s), s.len()) =~= s,
    decreases s.len(),
{
    if s.len() > 0 {
        let rest = s.drop_first();
        lemma_le_bytes_of_value(rest);
        let v = le_value(s);
        assert(v % 256 == s[0] as nat);
        assert(v / 256 == le_value(rest));
        assert(le_bytes(v, s.len()) =~= seq![s[0]] + le_bytes(le_value(rest), rest.len()));
    }
}

/// The little-endian value of a sequence is below `256^len`.
pub proof fn lemma_le_value_bound(s: Seq<u8>)
    ensures
        le_value(s) < byte_pow(s.len()),
    decreases s.len(),
{
    if s.len() > 0 {
        lemma_le_value_bound(s.drop_first());
    }
}

/// The bytes that the variable length quantity encoding writes for `shift` with `left` 2-byte groups to go: each
/// group holds 15 bits of the number, low bits first, with the 16th bit set when another group follows.
pub open spec fn vlq_bytes(shift: nat, left: nat) -> Seq<u8>
    decreases left,
{
    if left == 0 {
        Seq::empty()
    } else {
        let more = shift / 32768 != 0;
        let group = (shift % 32768 + if more { 32768nat } else { 0nat }) as nat;
        le_bytes(group, 2) + if more { vlq_bytes(shift / 32768, (left - 1) as nat) } else { Seq::empty() }
    }
}

/// Whether a variable length quantity decoder reading at most `left` 2-byte groups finds every group it asks for.
pub open spec fn vlq_readable(s: Seq<u8>, left: nat) -> bool
    decreases left,
{
    left == 0 || (s.len() >= 2 && (le_value(s.take(2)) >= 32768 && left > 1 ==> vlq_readable(
        s.skip(2),
        (left - 1) as nat,
    )))
}

/// The number and the count of bytes that a variable length quantity decoder reading at most `left` 2-byte groups
/// gets from `s`: the low 15 bits of each group, low groups first, until a group without the 16th bit.
pub open spec fn vlq_decode(s: Seq<u8>, left: nat) -> (nat, nat)
    decreases left,
{
    if left == 0 {
        (0, 0)
    } else {
        let group = le_value(s.take(2));
        let low = group % 32768;
        if group < 32768 || left == 1 {
            (low, 2)
        } else {
            let rest = vlq_decode(s.skip(2), (left - 1) as nat);
            (low + 32768 * rest.0, rest.1 + 2)
        }
    }
}

/// `32768` (one 15-bit group) to the power `count`.
pub open spec fn group_pow(count: nat) -> nat
    decreases count,
{
    if count == 0 {
        1
    } else {
        32768 * group_pow((count - 1) as nat)
    }
}

/// The largest number that `write_vlq` can write so that `read_vlq` reads it back: 60 bits.
pub open spec fn vlq_max() -> nat {
    group_pow(4)
}

/// The largest number a variable length quantity holds, below `2^60`.
pub proof fn lemma_vlq_max()
    ensures
        vlq_max() == 0x1000_0000_0000_0000,
{
    assert(group_pow(0) == 1);
    assert(group_pow(1) == 32768);
    assert(group_pow(2) == 1073741824);
    assert(group_pow(3) == 35184372088832);
    assert(group_pow(4) == 0x1000_0000_0000_0000);
}

/// Whether a length-prefixed string can be read from the front of `s`: the length and then that many bytes.
pub open spec fn string_readable(s: Seq<u8>) -> bool {
    vlq_readable(s, 4) && s.len() >= vlq_decode(s, 4).1 + vlq_decode(s, 4).0
}

/// The position just after the length-prefixed string at the front of `s`.
pub open spec fn string_end(s: Seq<u8>) -> int {
    (vlq_decode(s, 4).1 + vlq_decode(s, 4).0) as int
}

/// The characters of the length-prefixed string at the front of `s`, one per byte.
pub open spec fn string_chars(s: Seq<u8>) -> Seq<char> {
    s.subrange(vlq_decode(s, 4).1 as int, string_end(s)).map_values(|b: u8| b as char)
}

/// Appends a character to a string (`String::push`).
#[verifier::external_body]
pub(crate) fn string_push(string: &mut String, character: char)
    ensures
        final(string)@ == old(string)@.push(character),
{
    string.push(character);
}

/// Reading `count` little-endian bytes gives back a number that was written in `count` bytes, and leaves what followed.
pub proof fn integer_roundtrip(n: nat, count: nat, rest: Seq<u8>)
    requires
        n < byte_pow(count),
    ensures
        (le_bytes(n, count) + rest).len() >= count,
        le_value((le_bytes(n, count) + rest).take(count as int)) == n,
        (le_bytes(n, count) + rest).skip(count as int) == rest,
{
    lemma_le_bytes_len(n, count);
    lemma_le_value_of_bytes(n, count);
    assert((le_bytes(n, count) + rest).take(count as int) =~= le_bytes(n, count));
    assert((le_bytes(n, count) + rest).skip(count as int) =~= rest);
    vstd::arithmetic::div_mod::lemma_small_mod(n, byte_pow(count));
}

proof fn lemma_vlq_groups_roundtrip(shift: nat, left: nat, rest: Seq<u8>)
    requires
        left >= 1,
        shift < group_pow(left),
    ensures
        vlq_readable(vlq_bytes(shift, left) + rest, left),
        vlq_decode(vlq_bytes(shift, left) + rest, left) == (shift, vlq_bytes(shift, left).len()),
    decreases left,
{
    let more = shift / 32768 != 0;
    let group = (shift % 32768 + if more { 32768nat } else { 0nat }) as nat;
    let tail = if more { vlq_bytes(shift / 32768, (left - 1) as nat) } else { Seq::empty() };
    let s = vlq_bytes(shift, left) + rest;
    assert(vlq_bytes(shift, left) == le_bytes(group, 2) + tail);
    assert(s =~= le_bytes(group, 2) + (tail + rest));
    assert(byte_pow(0) == 1);
    assert(byte_pow(1) == 256);
    assert(byte_pow(2) == 65536);
    integer_roundtrip(group, 2, tail + rest);
    assert(le_value(s.take(2)) == group);
    assert(s.skip(2) == tail + rest);
    lemma_le_bytes_len(group, 2);
    if more {
        assert(left > 1) by {
            if left == 1 {
                assert(group_pow(1) == 32768 * group_pow(0));
            }
        }
        assert(shift / 32768 < group_pow((left - 1) as nat));
        lemma_vlq_groups_roundtrip(shift / 32768, (left - 1) as nat, rest);
        assert(shift == shift % 32768 + 32768 * (shift / 32768));
    }
}

/// Reading a variable length quantity gives back a number below `2^60` that was written, and the count of bytes
/// written.
pub proof fn vlq_roundtrip(number: nat, rest: Seq<u8>)
    requires
        number < vlq_max(),
    ensures
        vlq_readable(vlq_bytes(number, 4) + rest, 4),
        vlq_decode(vlq_bytes(number, 4) + rest, 4) == (number, vlq_bytes(number, 4).len()),
        (vlq_bytes(number, 4) + rest).skip(vlq_bytes(number, 4).len() as int) == rest,
{
    lemma_vlq_groups_roundtrip(number, 4, rest);
    assert((vlq_bytes(number, 4) + rest).skip(vlq_bytes(number, 4).len() as int) =~= rest);
}

/// Reading a string gives back an ASCII string that was written (one shorter than `2^60` characters), and leaves what
/// followed.
pub proof fn string_roundtrip(chars: Seq<char>, rest: Seq<u8>)
    requires
        vstd::utf8::is_ascii_chars(chars),
        chars.len() < vlq_max(),
        chars.len() <= usize::MAX,
    ensures
        string_readable(string_bytes(chars) + rest),
        string_chars(string_bytes(chars) + rest) == chars,
        (string_bytes(chars) + rest).skip(string_end(string_bytes(chars) + rest)) == rest,
{
    vstd::utf8::is_ascii_chars_encode_utf8(chars);
    let n = chars.len();
    assert(utf8_len(chars) == n);
    let bytes = vstd::utf8::encode_utf8(chars);
    let s = string_bytes(chars) + rest;
    assert(s =~= vlq_bytes(n, 4) + (bytes + rest));
    vlq_roundtrip(n, bytes + rest);
    let start = vlq_bytes(n, 4).len() as int;
    assert(s.subrange(start, start + n) =~= bytes);
    vstd::utf8::is_ascii_chars_nat_bound(chars);
    assert forall|i: int| 0 <= i < n implies (bytes[i] as char) == chars[i] by {
        assert((chars[i] as nat) < 128);
        assert(bytes[i] == chars[i] as u8);
    }
    assert(string_chars(s) =~= chars);
    assert(s.skip(string_end(s)) =~= rest);
}

} // verus!
