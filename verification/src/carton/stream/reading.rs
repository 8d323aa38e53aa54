use vstd::prelude::*;

use super::{
    byte_pow, group_pow, le_value, lemma_le_value_bound, string_chars, string_end, string_push, string_readable,
    vlq_decode, vlq_readable,
};

verus! {

pub fn read_u8(vector: &[u8]) -> (result: (u8, &[u8]))
    requires
        vector@.len() >= 1,
    ensures
        result.0 == vector@[0],
        result.1@ == vector@.drop_first(),
{
    (vector[0], &vector[1..vector.len()])
}

pub fn read_char(vector: &[u8]) -> (result: (char, &[u8]))
    requires
        vector@.len() >= 1,
    ensures
        result.0 == vector@[0] as char,
        result.1@ == vector@.drop_first(),
{
    (vector[0] as char, &vector[1..vector.len()])
}

proof fn lemma_shift_is_pow(i: u64)
    requires
        i < 8,
    ensures
        (1u64 << (8 * i)) as nat == byte_pow(i as nat),
    decreases i,
{
    if i == 0 {
        assert(1u64 << 0u64 == 1) by (bit_vector);
    } else {
        lemma_shift_is_pow((i - 1) as u64);
        let j = (i - 1) as u64;
        assert(j < 7 ==> (1u64 << (8 * (j + 1))) == 256 * (1u64 << (8 * j))) by (bit_vector);
        assert(8 * i == 8 * (j + 1));
    }
}

/// Or-ing a byte shifted above the bits already in use is the same as adding it at that weight.
proof fn lemma_or_shifted_byte(number: u64, byte: u8, i: u64)
    requires
        i < 8,
        (number as nat) < byte_pow(i as nat),
    ensures
        (number | ((byte as u64) << (8 * i))) as nat == number as nat + (byte as nat) * byte_pow(i as nat),
{
    lemma_shift_is_pow(i);
    assert(i < 8 && number < (1u64 << (8 * i)) ==> (number | ((byte as u64) << (8 * i)))
        == number + ((byte as u64) << (8 * i))) by (bit_vector);
    assert(i < 8 ==> ((byte as u64) << (8 * i)) == (byte as u64) * (1u64 << (8 * i))) by (bit_vector);
    assert((byte as u64) as nat * (1u64 << (8 * i)) as nat == (byte as nat) * byte_pow(i as nat));
}

/// Appending a byte at the high end of a little-endian sequence adds it at the next weight.
proof fn lemma_le_value_push(s: Seq<u8>, byte: u8)
    ensures
        le_value(s.push(byte)) == le_value(s) + (byte as nat) * byte_pow(s.len()),
    decreases s.len(),
{
    if s.len() == 0 {
        assert(s.push(byte).drop_first() =~= Seq::<u8>::empty());
        assert(s.push(byte)[0] == byte);
        assert(le_value(s.push(byte)) == byte as nat + 256 * le_value(Seq::<u8>::empty()));
        assert(le_value(s) == 0);
        assert(byte_pow(0) == 1);
        assert(le_value(s.push(byte)) == byte as nat);
    } else {
        assert(s.push(byte)[0] == s[0]);
        lemma_le_value_push(s.drop_first(), byte);
        assert(s.push(byte).drop_first() =~= s.drop_first().push(byte));
        assert(256 * (le_value(s.drop_first()) + (byte as nat) * byte_pow((s.len() - 1) as nat))
            == 256 * le_value(s.drop_first()) + (byte as nat) * (256 * byte_pow((s.len() - 1) as nat)))
            by (nonlinear_arith);
        assert(byte_pow(s.len()) == 256 * byte_pow((s.len() - 1) as nat));
        assert(le_value(s.push(byte)) == s[0] as nat + 256 * le_value(s.drop_first().push(byte)));
        assert(le_value(s) == s[0] as nat + 256 * le_value(s.drop_first()));
    }
}

/// Reads 2 bytes in little-endian format
pub fn read_u16(vector: &[u8]) -> (result: (u16, &[u8]))
    requires
        vector@.len() >= 2,
    ensures
        result.0 as nat == le_value(vector@.take(2)),
        result.1@ == vector@.skip(2),
{
    let ghost start = vector@;
    let mut vector = vector;
    let mut number: u16 = 0;
    for i in 0..2u32
        invariant
            start.len() >= 2,
            vector@ == start.skip(i as int),
            number as nat == le_value(start.take(i as int)),
    {
        proof {
            lemma_le_value_bound(start.take(i as int));
        }
        let (byte, new_position) = read_u8(vector);
        vector = new_position;

        proof {
            lemma_or_shifted_byte(number as u64, byte, i as u64);
            assert((number as u64 | ((byte as u64) << (8 * (i as u64)))) == (number | ((byte as u16) << (i * 8))) as u64)
                by (bit_vector)
                requires
                    i < 2;
            assert(start.take(i + 1) =~= start.take(i as int).push(byte));
            lemma_le_value_push(start.take(i as int), byte);
            assert(start.skip(i + 1) =~= start.skip(i as int).drop_first());
        }
        number |= (byte as u16) << (i * 8);
    }
    return (number, vector);
}

/// Reads 4 bytes in little-endian format
pub fn read_u32(vector: &[u8]) -> (result: (u32, &[u8]))
    requires
        vector@.len() >= 4,
    ensures
        result.0 as nat == le_value(vector@.take(4)),
        result.1@ == vector@.skip(4),
{
    let ghost start = vector@;
    let mut vector = vector;
    let mut number: u32 = 0;
    for i in 0..4u32
        invariant
            start.len() >= 4,
            vector@ == start.skip(i as int),
            number as nat == le_value(start.take(i as int)),
    {
        proof {
            lemma_le_value_bound(start.take(i as int));
        }
        let (byte, new_position) = read_u8(vector);
        vector = new_position;

        proof {
            lemma_or_shifted_byte(number as u64, byte, i as u64);
            assert((number as u64 | ((byte as u64) << (8 * (i as u64)))) == (number | ((byte as u32) << (i * 8))) as u64)
                by (bit_vector)
                requires
                    i < 4;
            assert(start.take(i + 1) =~= start.take(i as int).push(byte));
            lemma_le_value_push(start.take(i as int), byte);
            assert(start.skip(i + 1) =~= start.skip(i as int).drop_first());
        }
        number |= (byte as u32) << (i * 8);
    }
    return (number, vector);
}

/// Reads 8 bytes in little-endian format
pub fn read_u64(vector: &[u8]) -> (result: (u64, &[u8]))
    requires
        vector@.len() >= 8,
    ensures
        result.0 as nat == le_value(vector@.take(8)),
        result.1@ == vector@.skip(8),
{
    let ghost start = vector@;
    let mut vector = vector;
    let mut number: u64 = 0;
    for i in 0..8u32
        invariant
            start.len() >= 8,
            vector@ == start.skip(i as int),
            number as nat == le_value(start.take(i as int)),
    {
        proof {
            lemma_le_value_bound(start.take(i as int));
        }
        let (byte, new_position) = read_u8(vector);
        vector = new_position;

        proof {
            lemma_or_shifted_byte(number as u64, byte, i as u64);
            assert((number | ((byte as u64) << (8 * (i as u64)))) == (number | ((byte as u64) << (i * 8))))
                by (bit_vector)
                requires
                    i < 8;
            assert(start.take(i + 1) =~= start.take(i as int).push(byte));
            lemma_le_value_push(start.take(i as int), byte);
            assert(start.skip(i + 1) =~= start.skip(i as int).drop_first());
        }
        number |= (byte as u64) << (i * 8);
    }
    return (number, vector);
}

proof fn lemma_group_shift_is_pow(i: u64)
    requires
        i < 4,
    ensures
        (1u64 << (15 * i)) as nat == group_pow(i as nat),
    decreases i,
{
    if i == 0 {
        assert(1u64 << 0u64 == 1) by (bit_vector);
    } else {
        lemma_group_shift_is_pow((i - 1) as u64);
        let j = (i - 1) as u64;
        assert(j < 3 ==> (1u64 << (15 * (j + 1))) == 32768 * (1u64 << (15 * j))) by (bit_vector);
        assert(15 * i == 15 * (j + 1));
    }
}

/// Or-ing a 15-bit group above the bits already in use is the same as adding it at that weight.
proof fn lemma_or_shifted_group(number: u64, bytes: u16, i: u64)
    requires
        i < 4,
        (number as nat) < group_pow(i as nat),
    ensures
        (number | (((bytes as u64) & 0x7FFF) << (i * 15))) as nat == number as nat + ((bytes as nat) % 32768)
            * group_pow(i as nat),
        number as nat + ((bytes as nat) % 32768) * group_pow(i as nat) < group_pow((i + 1) as nat),
{
    lemma_group_shift_is_pow(i);
    assert(i < 4 && number < (1u64 << (15 * i)) ==> (number | (((bytes as u64) & 0x7FFF) << (i * 15)))
        == number + (((bytes as u64) & 0x7FFF) * (1u64 << (15 * i)))) by (bit_vector);
    assert(((bytes as u64) & 0x7FFF) == (bytes as u64) % 32768) by (bit_vector);
    let low = (bytes as nat) % 32768;
    let p = group_pow(i as nat);
    assert(number as nat + low * p < 32768 * p) by (nonlinear_arith)
        requires
            (number as nat) < p,
            low < 32768,
    ;
}

/// Reads a variable length quantity integer. The 16th bit in a 2 byte pair represents if the number has another two
/// bits. 1 if there are, 0 if there aren't.
pub fn read_vlq(vector: &[u8]) -> (result: (u64, &[u8]))
    requires
        vlq_readable(vector@, 4),
    ensures
        result.0 as nat == vlq_decode(vector@, 4).0,
        result.1@ == vector@.skip(vlq_decode(vector@, 4).1 as int),
{
    let ghost start = vector@;
    let mut vector = vector;
    let mut number: u64 = 0;
    let mut i: u32 = 0;
    while i < 4
        invariant_except_break
            i <= 4,
            vlq_readable(vector@, (4 - i) as nat),
            vector.len() <= start.len(),
            vector@ == start.skip(start.len() - vector.len()),
            (number as nat) < group_pow(i as nat),
            vlq_decode(start, 4).0 == number as nat + group_pow(i as nat) * vlq_decode(vector@, (4 - i) as nat).0,
            vlq_decode(start, 4).1 == (start.len() - vector.len()) + vlq_decode(vector@, (4 - i) as nat).1,
            i == 4 ==> number as nat == vlq_decode(start, 4).0 && vector@ == start.skip(
                vlq_decode(start, 4).1 as int,
            ),
        ensures
            number as nat == vlq_decode(start, 4).0,
            vector@ == start.skip(vlq_decode(start, 4).1 as int),
        decreases 4 - i,
    {
        let ghost before = vector@;
        let ghost old_number = number;
        let (bytes, new_position) = read_u16(vector);
        vector = new_position;

        proof {
            lemma_or_shifted_group(number, bytes, i as u64);
            assert((bytes & 0x8000 == 0) == (bytes < 32768)) by (bit_vector);
            assert(vector@ =~= start.skip(start.len() - vector.len()));
        }
        number |= (bytes as u64 & 0x7FFF) << (i * 15);
        i = i + 1;

        proof {
            let left = (4 - (i - 1)) as nat;
            let low = (bytes as nat) % 32768;
            let p = group_pow((i - 1) as nat);
            assert(group_pow(i as nat) == 32768 * p);
            assert(number as nat == old_number as nat + low * p);
            if bytes >= 32768 && left > 1 {
                let rest = vlq_decode(vector@, (left - 1) as nat);
                assert(vlq_decode(before, left) == (low + 32768 * rest.0, rest.1 + 2));
                assert(p * (low + 32768 * rest.0) == low * p + (32768 * p) * rest.0) by (nonlinear_arith);
            } else {
                assert(vlq_decode(before, left) == (low, 2nat));
                assert(p * low == low * p) by (nonlinear_arith);
                if i == 4 {
                    assert(vlq_decode(vector@, 0) == (0nat, 0nat));
                    assert(group_pow(i as nat) * 0 == 0) by (nonlinear_arith);
                }
            }
        }

        if bytes & 0x8000 == 0 {
            break;
        }
    }
    return (number, vector);
}

/// Strings are length encoded, with a variable length integer representing the length. Strings can have up to 2**60
/// characters.
pub fn read_string(vector: &[u8]) -> (result: (String, &[u8]))
    requires
        string_readable(vector@),
    ensures
        result.0@ == string_chars(vector@),
        result.1@ == vector@.skip(string_end(vector@)),
{
    let ghost start = vector@;
    let mut vector = vector;
    let (length, new_position) = read_vlq(vector);
    vector = new_position;
    let ghost body = vector@;

    let mut output = String::new();
    for i in 0..length
        invariant
            body == start.skip(vlq_decode(start, 4).1 as int),
            length == vlq_decode(start, 4).0,
            start.len() >= vlq_decode(start, 4).1 + length,
            vector@ == body.skip(i as int),
            output@ == body.take(i as int).map_values(|b: u8| b as char),
    {
        let (character, new_position) = read_char(vector);
        vector = new_position;

        string_push(&mut output, character);
        proof {
            assert(body.take(i + 1) =~= body.take(i as int).push(body[i as int]));
            assert(output@ =~= body.take(i + 1).map_values(|b: u8| b as char));
            assert(vector@ =~= body.skip(i + 1));
        }
    }
    proof {
        assert(body.take(length as int) =~= start.subrange(vlq_decode(start, 4).1 as int, string_end(start)));
        assert(vector@ =~= start.skip(string_end(start)));
    }
    return (output, vector);
}

} // verus!
