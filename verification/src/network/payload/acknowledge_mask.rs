use vstd::prelude::*;

use crate::carton::stream::writing::write_u64;
use crate::carton::stream::{le_bytes, Encode};
use crate::network::error::NetworkError;
use crate::network::network_stream::{
    integer_parse, lemma_advance, NetworkReadStream, StreamDecode, StreamPosition,
};

verus! {

/// Number of `u64` words in an acknowledge mask.
pub const ACKNOWLEDGE_MASK_SIZE: usize = 2;

/// Records which of the last 128 packets were acknowledged. Bit `n` of the mask stands for the packet `n` sequence
/// numbers before the newest one.
#[derive(Clone, Copy, Debug)]
pub struct AcknowledgeMask {
    mask: [u64; ACKNOWLEDGE_MASK_SIZE],
}

/// The 128-bit value of two mask words, the first word holding the low bits.
pub open spec fn mask_value(low: u64, high: u64) -> u128 {
    ((high as u128) << 64u128) | (low as u128)
}

/// The value of a 128-bit mask after shifting it left by `amount` bits; bits shifted past the top are dropped.
pub open spec fn shifted(value: u128, amount: nat) -> u128 {
    if amount >= 128 {
        0
    } else {
        value << (amount as u128)
    }
}

proof fn lemma_shift_step(low: u64, high: u64, amount: u64)
    requires
        1 <= amount <= 63,
    ensures
        mask_value(low << amount, (high << amount) | ((low & (0xFFFF_FFFF_FFFF_FFFFu64 << ((64 - amount) as u64))) >> ((64
            - amount) as u64))) == mask_value(low, high) << (amount as u128),
{
    assert(((((high << amount) | ((low & (0xFFFF_FFFF_FFFF_FFFFu64 << ((64 - amount) as u64))) >> ((64 - amount) as u64))) as u128)
        << 64u128) | ((low << amount) as u128) == ((((high as u128) << 64u128) | (low as u128)) << (
    amount as u128))) by (bit_vector)
        requires
            1 <= amount <= 63,
    ;
}

proof fn lemma_shift_compose(value: u128, first: u64, second: u64)
    requires
        first < 128,
        second < 128,
    ensures
        shifted(value << (first as u128), second as nat) == shifted(value, (first + second) as nat),
{
    if first + second < 128 {
        assert((value << (first as u128)) << (second as u128) == value << ((first + second) as u128))
            by (bit_vector)
            requires
                first + second < 128,
        ;
    } else {
        if second < 128 {
            assert((value << (first as u128)) << (second as u128) == 0u128) by (bit_vector)
                requires
                    first < 128,
                    second < 128,
                    first + second >= 128,
            ;
        }
    }
}

impl Default for AcknowledgeMask {
    fn default() -> (mask: Self)
        ensures
            mask@ == 0,
    {
        proof {
            assert(mask_value(0, 0) == 0) by (bit_vector);
        }
        AcknowledgeMask { mask: [0; ACKNOWLEDGE_MASK_SIZE] }
    }
}

impl View for AcknowledgeMask {
    type V = u128;

    closed spec fn view(&self) -> u128 {
        mask_value(self.mask@[0], self.mask@[1])
    }
}

impl AcknowledgeMask {
    /// The mask's two words, low word first.
    pub closed spec fn words(&self) -> (u64, u64) {
        (self.mask@[0], self.mask@[1])
    }

    /// Builds a mask from its two words, low word first.
    pub fn from_words(low: u64, high: u64) -> (mask: Self)
        ensures
            mask.words() == (low, high),
            mask@ == mask_value(low, high),
    {
        AcknowledgeMask { mask: [low, high] }
    }

    /// The mask's low and high words.
    pub fn get_words(&self) -> (words: (u64, u64))
        ensures
            words == self.words(),
            self@ == mask_value(words.0, words.1),
    {
        (self.mask[0], self.mask[1])
    }

    /// Shifts the acknowledge mask by the specified amount
    pub fn shift(&mut self, amount: u32)
        ensures
            final(self)@ == shifted(old(self)@, amount as nat),
        decreases amount,
    {
        if amount == 0 {
            proof {
                let v = self@;
                assert(v << 0u128 == v) by (bit_vector);
            }
            return ;
        }
        let capped_amount: u32 = if amount >= 63 {
            63
        } else {
            amount
        };

        let ghost before = self@;
        let c: u64 = capped_amount as u64;
        let low = self.mask[0];
        let high = self.mask[1];
        let carry = low & (0xFFFF_FFFF_FFFF_FFFFu64 << (64 - c));
        let new_low = low << c;
        let new_high = (high << c) | (carry >> (64 - c));
        self.mask = [new_low, new_high];
        proof {
            lemma_shift_step(low, high, c);
            assert(self@ == before << (c as u128));
        }

        // it becomes non-trivial to do shifts with an amount > 63. good thing we can split amount > 63 shifts into
        // multiple shift calls, all with a range of amount <= 63
        self.shift(amount - capped_amount);
        proof {
            if (amount - capped_amount) < 128 {
                lemma_shift_compose(before, c, (amount - capped_amount) as u64);
            }
        }
    }

    /// Sets the first bit to 1.
    pub fn set_first(&mut self)
        ensures
            final(self)@ == old(self)@ | 1,
    {
        let low = self.mask[0];
        let high = self.mask[1];
        proof {
            assert(mask_value(low | 1, high) == mask_value(low, high) | 1) by (bit_vector);
        }
        self.mask = [low | 1, high];
    }

    /// Tests a bit.
    pub fn test(&self, bit: u32) -> (result: Option<bool>)
        ensures
            result == if bit < 128 {
                Some((self@ >> (bit as u128)) & 1 == 1)
            } else {
                None::<bool>
            },
    {
        if bit as usize >= ACKNOWLEDGE_MASK_SIZE * 64 {
            None
        } else {
            let word = self.mask[(bit / 64) as usize];
            let b: u64 = (bit % 64) as u64;
            let low = self.mask[0];
            let high = self.mask[1];
            proof {
                let v = mask_value(low, high);
                if bit < 64 {
                    assert(((low & (1u64 << b)) != 0) == ((mask_value(low, high) >> (b as u128)) & 1 == 1))
                        by (bit_vector)
                        requires
                            b < 64,
                    ;
                } else {
                    assert(((high & (1u64 << b)) != 0) == ((mask_value(low, high) >> ((b + 64) as u128)) & 1
                        == 1)) by (bit_vector)
                        requires
                            b < 64,
                    ;
                }
            }
            Some((word & (1 << b)) != 0)
        }
    }
}

/// The bits of a mask as characters, highest bit first: `1` for a set bit, `0` for a clear one.
pub open spec fn bit_chars(value: u128) -> Seq<char> {
    Seq::new(128, |k: int| if (value >> ((127 - k) as u128)) & 1 == 1 { '1' } else { '0' })
}

impl AcknowledgeMask {
    /// The mask as text: its 128 bits, highest first, between square brackets.
    pub fn to_bit_string(&self) -> (text: String)
        ensures
            text@ == seq!['['] + bit_chars(self@) + seq![']'],
    {
        let mut text = String::new();
        crate::carton::stream::string_push(&mut text, '[');
        let mut i: u32 = 0;
        while i < 128
            invariant
                i <= 128,
                text@ == seq!['['] + bit_chars(self@).take(i as int),
            decreases 128 - i,
        {
            let set = match self.test(127 - i) {
                Some(set) => set,
                None => false,
            };
            let character = if set {
                '1'
            } else {
                '0'
            };
            crate::carton::stream::string_push(&mut text, character);
            proof {
                assert(bit_chars(self@).take(i + 1) =~= bit_chars(self@).take(i as int).push(character));
            }
            i = i + 1;
        }
        crate::carton::stream::string_push(&mut text, ']');
        proof {
            assert(bit_chars(self@).take(128) =~= bit_chars(self@));
        }
        text
    }
}

impl Encode for AcknowledgeMask {
    open spec fn encodable(&self) -> bool {
        true
    }

    /// The two mask words, low word first, each in 8 little-endian bytes.
    open spec fn encoding(&self) -> Seq<u8> {
        le_bytes(self.words().0 as nat, 8) + le_bytes(self.words().1 as nat, 8)
    }

    fn encode(&self, vector: &mut Vec<u8>) {
        write_u64(self.mask[0], vector);
        write_u64(self.mask[1], vector);
        proof {
            assert(final(vector)@ =~= old(vector)@ + self.encoding());
        }
    }
}

/// The result of decoding an acknowledge mask from the front of `s`: two 8 byte words, low word first.
pub open spec fn acknowledge_mask_parse(s: Seq<u8>) -> Result<(u128, nat), NetworkError> {
    match integer_parse(s, 8) {
        Err(error) => Err(error),
        Ok((low, _)) => match integer_parse(s.skip(8), 8) {
            Err(error) => Err(error),
            Ok((high, _)) => Ok((mask_value(low as u64, high as u64), 16)),
        },
    }
}

impl StreamDecode for AcknowledgeMask {
    open spec fn decodable(s: Seq<u8>) -> bool {
        true
    }

    open spec fn parse(s: Seq<u8>) -> Result<(u128, nat), NetworkError> {
        acknowledge_mask_parse(s)
    }

    fn decode(stream: &mut NetworkReadStream) -> (result: Result<(Self, StreamPosition), NetworkError>) {
        let ghost start = *stream;
        let low = match stream.read_u64() {
            Ok((number, _)) => number,
            Err(error) => return Err(error),
        };
        proof {
            lemma_advance(start, *stream, 8);
        }
        let (high, position) = match stream.read_u64() {
            Ok(pair) => pair,
            Err(error) => return Err(error),
        };
        Ok((AcknowledgeMask { mask: [low, high] }, position))
    }
}

/// Shifting a mask by `first` and then by `second` shifts it by `first + second`.
pub proof fn shift_composes(value: u128, first: nat, second: nat)
    ensures
        shifted(shifted(value, first), second) == shifted(value, first + second),
{
    if first < 128 && second < 128 {
        lemma_shift_compose(value, first as u64, second as u64);
    } else if first >= 128 && second < 128 {
        let amount = second as u128;
        assert(0u128 << amount == 0u128) by (bit_vector);
    }
}

/// Shifting a mask by `amount` moves each bit up by `amount` places; the lowest `amount` bits become clear.
pub proof fn shift_moves_bits(value: u128, amount: nat, bit: nat)
    requires
        bit < 128,
    ensures
        amount <= bit ==> (shifted(value, amount) >> (bit as u128)) & 1 == (value >> ((bit - amount) as u128)) & 1,
        bit < amount ==> (shifted(value, amount) >> (bit as u128)) & 1 == 0,
{
    if amount < 128 {
        let a = amount as u128;
        let b = bit as u128;
        if amount <= bit {
            let d = (bit - amount) as u128;
            assert(((value << a) >> b) & 1 == (value >> d) & 1) by (bit_vector)
                requires
                    a < 128,
                    b < 128,
                    d + a == b,
            ;
        }
        assert(b < a ==> ((value << a) >> b) & 1 == 0) by (bit_vector)
            requires
                a < 128,
                b < 128,
        ;
    } else {
        let b = bit as u128;
        assert((0u128 >> b) & 1 == 0) by (bit_vector);
    }
}

/// Setting the first bit marks the newest packet and leaves every other bit as it was.
pub proof fn set_first_marks_newest(value: u128, bit: nat)
    requires
        bit < 128,
    ensures
        (value | 1) & 1 == 1,
        bit > 0 ==> ((value | 1) >> (bit as u128)) & 1 == (value >> (bit as u128)) & 1,
{
    let b = bit as u128;
    assert((value | 1) & 1 == 1) by (bit_vector);
    assert(b > 0 ==> ((value | 1) >> b) & 1 == (value >> b) & 1) by (bit_vector)
        requires
            b < 128,
    ;
}

/// Decoding an encoded mask gives back its value, whatever follows it.
pub proof fn acknowledge_mask_roundtrip(low: u64, high: u64, rest: Seq<u8>)
    ensures
        acknowledge_mask_parse(le_bytes(low as nat, 8) + le_bytes(high as nat, 8) + rest) == Ok::<
            (u128, nat),
            NetworkError,
        >((mask_value(low, high), 16)),
{
    let s = le_bytes(low as nat, 8) + le_bytes(high as nat, 8) + rest;
    crate::carton::stream::lemma_byte_pow_8();
    crate::carton::stream::lemma_le_bytes_len(low as nat, 8);
    crate::carton::stream::lemma_le_bytes_len(high as nat, 8);
    super::payload::lemma_integer_parse_bytes(low as nat, 8, le_bytes(high as nat, 8) + rest);
    assert(s =~= le_bytes(low as nat, 8) + (le_bytes(high as nat, 8) + rest));
    super::payload::lemma_integer_parse_bytes(high as nat, 8, rest);
    assert(s.skip(8) =~= le_bytes(high as nat, 8) + rest);
}

} // verus!
