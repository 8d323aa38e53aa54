use vstd::prelude::*;

use vstd::string::StringSliceAdditionalSpecFns;

use super::{le_bytes, vlq_bytes};

verus! {

/// Appends one byte.
pub fn write_u8(byte: u8, vector: &mut Vec<u8>)
    ensures
        final(vector)@ == old(vector)@.push(byte),
{
    vector.push(byte);
}

/// Appends one character, truncated to its low byte.
pub fn write_char(byte: char, vector: &mut Vec<u8>)
    ensures
        final(vector)@ == old(vector)@.push(byte as u8),
{
    vector.push(byte as u8);
}

/// Writes 2 bytes in little-endian format
pub fn write_u16(number: u16, vector: &mut Vec<u8>)
    ensures
        final(vector)@ == old(vector)@ + le_bytes(number as nat, 2),
{
    let ghost start = vector@;
    let mut shift = number;
    for i in 0..2
        invariant
            start + le_bytes(number as nat, 2) == vector@ + le_bytes(shift as nat, (2 - i) as nat),
    {
        proof {
            assert((shift & 0xFF) as u8 == (shift as nat % 256) as u8 && shift >> 8 == shift / 256)
                by (bit_vector);
            assert(le_bytes(shift as nat, (2 - i) as nat) =~= seq![(shift as nat % 256) as u8]
                + le_bytes((shift / 256) as nat, (2 - (i + 1)) as nat));
        }
        write_u8((shift & 0xFF) as u8, vector);
        shift >>= 8;
    }
    assert(vector@ + le_bytes(shift as nat, 0) =~= vector@);
}

/// Writes 4 bytes in little-endian format
pub fn write_u32(number: u32, vector: &mut Vec<u8>)
    ensures
        final(vector)@ == old(vector)@ + le_bytes(number as nat, 4),
{
    let ghost start = vector@;
    let mut shift = number;
    for i in 0..4
        invariant
            start + le_bytes(number as nat, 4) == vector@ + le_bytes(shift as nat, (4 - i) as nat),
    {
        proof {
            assert((shift & 0xFF) as u8 == (shift as nat % 256) as u8 && shift >> 8 == shift / 256)
                by (bit_vector);
            assert(le_bytes(shift as nat, (4 - i) as nat) =~= seq![(shift as nat % 256) as u8]
                + le_bytes((shift / 256) as nat, (4 - (i + 1)) as nat));
        }
        write_u8((shift & 0xFF) as u8, vector);
        shift >>= 8;
    }
    assert(vector@ + le_bytes(shift as nat, 0) =~= vector@);
}

/// Writes 8 bytes in little-endian format
pub fn write_u64(number: u64, vector: &mut Vec<u8>)
    ensures
        final(vector)@ == old(vector)@ + le_bytes(number as nat, 8),
{
    let ghost start = vector@;
    let mut shift = number;
    for i in 0..8
        invariant
            start + le_bytes(number as nat, 8) == vector@ + le_bytes(shift as nat, (8 - i) as nat),
    {
        proof {
            assert((shift & 0xFF) as u8 == (shift as nat % 256) as u8 && shift >> 8 == shift / 256)
                by (bit_vector);
            assert(le_bytes(shift as nat, (8 - i) as nat) =~= seq![(shift as nat % 256) as u8]
                + le_bytes((shift / 256) as nat, (8 - (i + 1)) as nat));
        }
        write_u8((shift & 0xFF) as u8, vector);
        shift >>= 8;
    }
    assert(vector@ + le_bytes(shift as nat, 0) =~= vector@);
}

/// Writes a variable length quantity integer. The 16th bit in a 2 byte pair represents if the number has another two
/// bits. 1 if there are, 0 if there aren't.
pub fn write_vlq(id: u64, vector: &mut Vec<u8>)
    ensures
        final(vector)@ == old(vector)@ + vlq_bytes(id as nat, 4),
{
    let ghost start = vector@;
    let mut shift = id;
    let mut i: usize = 0;
    while i < 4
        invariant_except_break
            i <= 4,
            start + vlq_bytes(id as nat, 4) == vector@ + vlq_bytes(shift as nat, (4 - i) as nat),
        ensures
            vector@ == start + vlq_bytes(id as nat, 4),
        decreases 4 - i,
    {
        let more = shift >> 15 != 0;
        proof {
            assert(shift >> 15 == shift / 32768 && (shift as u16 & 0x7FFF) == shift % 32768
                && ((shift as u16 & 0x7FFF) | 0x8000) == (shift % 32768) + 32768) by (bit_vector);
        }
        let number = if shift >> 15 != 0 {
            (shift as u16 & 0x7FFF) | 0x8000
        } else {
            shift as u16 & 0x7FFF
        };
        proof {
            let group = (shift % 32768 + if more { 32768nat } else { 0nat }) as nat;
            assert(number as nat == group);
        }
        write_u16(number, vector);

        shift >>= 15;
        i = i + 1;

        if shift == 0 {
            proof {
                assert(!more);
                assert(vector@ =~= start + vlq_bytes(id as nat, 4));
            }
            break;
        }
    }
    proof {
        if i == 4 {
            assert(vector@ + vlq_bytes(shift as nat, 0) =~= vector@);
        }
    }
}

/// The UTF-8 length of a string, as `str::len` reports it.
pub open spec fn utf8_len(chars: Seq<char>) -> nat {
    (vstd::utf8::encode_utf8(chars).len() as usize) as nat
}

/// The bytes that `write_string` emits for a string: its UTF-8 length as a variable length quantity, then its UTF-8
/// bytes.
pub open spec fn string_bytes(chars: Seq<char>) -> Seq<u8> {
    vlq_bytes(utf8_len(chars), 4) + vstd::utf8::encode_utf8(chars)
}

/// Strings are length encoded, with a variable length integer representing the length. Strings can have up to 2**60
/// characters.
pub fn write_string(string: &str, vector: &mut Vec<u8>)
    ensures
        final(vector)@ == old(vector)@ + string_bytes(string@),
{
    let ghost start = vector@;
    write_vlq(string.len() as u64, vector);
    let ghost mid = vector@;
    let bytes = string.as_bytes();
    for i in 0..bytes.len()
        invariant
            mid == start + vlq_bytes(utf8_len(string@), 4),
            bytes@ == vstd::utf8::encode_utf8(string@),
            vector@ == mid + bytes@.take(i as int),
    {
        vector.push(bytes[i]);
        proof {
            assert(bytes@.take(i + 1) =~= bytes@.take(i as int).push(bytes@[i as int]));
        }
    }
    proof {
        assert(bytes@.take(bytes@.len() as int) =~= bytes@);
    }
}

} // verus!
