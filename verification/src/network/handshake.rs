use vstd::prelude::*;

use crate::carton::stream::writing::{string_bytes, write_char, write_string, write_u16, write_u32, write_u8};
use crate::carton::stream::{le_bytes, Encode};
use crate::network::error::NetworkError;
use crate::network::payload::payload::lemma_integer_parse_bytes;
use crate::network::network_stream::{
    integer_parse, lemma_advance, lemma_integer_parse_bound, string_safe_parse, NetworkReadStream, StreamDecode,
    StreamPosition,
};

verus! {

#[derive(Clone, Copy, Debug, PartialEq, Eq, Structural)]
pub enum HandshakeError {
    InvalidMagicNumber,
}

/// The shortest branch name a version may carry.
pub const BRANCH_MINIMUM_LENGTH: u64 = 3;

/// The longest branch name a version may carry.
pub const BRANCH_MAXIMUM_LENGTH: u64 = 32;

/// The eggine's version. The version satisfies this regex: v([0-9]+).([0-9]+).([a-zA-Z_][a-zA-Z_0-9]+)#([0-9]+).
/// 1st group: Major version. Intended for public consumption, and thus incremented arbitrarily.
/// 2nd group: Minor version. Intended for public consumption, and thus incremented arbitrarily.
/// 3rd group: Git branch the eggine was built on.
/// 4th group: Revision number. Number of commits since the last major-minor release. A major-minor version is released
/// on the eggine's default branch, and resets the revision number.
///
/// The versioning system is designed to include a human-readable canonical representation of a commit in the eggine's
/// game engine repository. This is useful for keeping track of exactly which commit any distributed version of the
/// eggine is running, helping speed up bug fixing.
#[derive(Debug)]
pub struct Version {
    pub branch: String,
    pub major: u16,
    pub minor: u16,
    pub revision: u16,
}

/// What a version holds.
pub struct VersionView {
    pub branch: Seq<char>,
    pub major: u16,
    pub minor: u16,
    pub revision: u16,
}

impl View for Version {
    type V = VersionView;

    open spec fn view(&self) -> VersionView {
        VersionView { branch: self.branch@, major: self.major, minor: self.minor, revision: self.revision }
    }
}

/// The bytes that encode a version: major, minor and revision in 2 bytes each, then the branch name.
pub open spec fn version_bytes(version: VersionView) -> Seq<u8> {
    le_bytes(version.major as nat, 2) + le_bytes(version.minor as nat, 2) + le_bytes(version.revision as nat, 2)
        + string_bytes(version.branch)
}

/// The result of decoding a version from the front of `s`; the branch name must be 3 to 32 characters long.
pub open spec fn version_parse(s: Seq<u8>) -> Result<(VersionView, nat), NetworkError> {
    match integer_parse(s, 2) {
        Err(error) => Err(error),
        Ok((major, _)) => match integer_parse(s.skip(2), 2) {
            Err(error) => Err(error),
            Ok((minor, _)) => match integer_parse(s.skip(4), 2) {
                Err(error) => Err(error),
                Ok((revision, _)) => match string_safe_parse(
                    s.skip(6),
                    BRANCH_MINIMUM_LENGTH as nat,
                    BRANCH_MAXIMUM_LENGTH as nat,
                ) {
                    Err(error) => Err(error),
                    Ok((branch, length)) => Ok(
                        (
                            VersionView {
                                branch,
                                major: major as u16,
                                minor: minor as u16,
                                revision: revision as u16,
                            },
                            6 + length,
                        ),
                    ),
                },
            },
        },
    }
}

impl Encode for Version {
    open spec fn encodable(&self) -> bool {
        true
    }

    open spec fn encoding(&self) -> Seq<u8> {
        version_bytes(self@)
    }

    fn encode(&self, vector: &mut Vec<u8>) {
        write_u16(self.major, vector);
        write_u16(self.minor, vector);
        write_u16(self.revision, vector);
        write_string(&self.branch, vector);
        proof {
            assert(final(vector)@ =~= old(vector)@ + version_bytes(self@));
        }
    }
}

impl StreamDecode for Version {
    open spec fn decodable(s: Seq<u8>) -> bool {
        true
    }

    open spec fn parse(s: Seq<u8>) -> Result<(VersionView, nat), NetworkError> {
        version_parse(s)
    }

    fn decode(stream: &mut NetworkReadStream) -> (result: Result<(Self, StreamPosition), NetworkError>) {
        let ghost start = *stream;
        let ghost s = start.remaining();
        proof {
            lemma_integer_parse_bound(s, 2);
            lemma_integer_parse_bound(s.skip(2), 2);
            lemma_integer_parse_bound(s.skip(4), 2);
            crate::carton::stream::lemma_byte_pow_8();
        }
        let major = match stream.read_u16() {
            Ok((number, _)) => number,
            Err(error) => return Err(error),
        };
        proof {
            lemma_advance(start, *stream, 2);
        }
        let minor = match stream.read_u16() {
            Ok((number, _)) => number,
            Err(error) => return Err(error),
        };
        proof {
            lemma_advance(start, *stream, 4);
        }
        let revision = match stream.read_u16() {
            Ok((number, _)) => number,
            Err(error) => return Err(error),
        };
        proof {
            lemma_advance(start, *stream, 6);
        }
        let (branch, position) = match stream.read_string_safe(BRANCH_MINIMUM_LENGTH, BRANCH_MAXIMUM_LENGTH) {
            Ok(pair) => pair,
            Err(error) => return Err(error),
        };
        Ok((Version { branch, major, minor, revision }, position))
    }
}

/// Used to verify a client connection on the server.
#[derive(Debug)]
pub struct Handshake {
    /// Checksum of the network API. If the checksum between a client and server do not match, then they would be
    /// unable to communicate with each other.
    pub checksum: [u8; 16],
    /// The identifier that can uniquely identify clients in NTP packets.
    pub ntp_id: u32,
    /// Used to instantiate packet sequence numbers between the client and server. The server initializes all sequence
    /// numbers.
    pub sequences: (u32, u32),
    /// Version of the eggine that the client/server is running on.
    pub version: Version,
}

/// What a handshake holds.
pub struct HandshakeView {
    pub checksum: Seq<u8>,
    pub ntp_id: u32,
    pub sequences: (u32, u32),
    pub version: VersionView,
}

impl View for Handshake {
    type V = HandshakeView;

    open spec fn view(&self) -> HandshakeView {
        HandshakeView {
            checksum: self.checksum@,
            ntp_id: self.ntp_id,
            sequences: self.sequences,
            version: self.version@,
        }
    }
}

/// The magic number that starts a handshake: `EGGINE`, one byte per character.
pub open spec fn handshake_magic() -> Seq<u8> {
    seq![69u8, 71u8, 71u8, 73u8, 78u8, 69u8]
}

/// The bytes that encode a handshake: the magic number, the NTP id, both sequence numbers, the 16 checksum bytes and
/// the version.
pub open spec fn handshake_bytes(handshake: HandshakeView) -> Seq<u8> {
    handshake_magic() + le_bytes(handshake.ntp_id as nat, 4) + le_bytes(handshake.sequences.0 as nat, 4) + le_bytes(
        handshake.sequences.1 as nat,
        4,
    ) + handshake.checksum + version_bytes(handshake.version)
}

/// The result of decoding a handshake from the front of `s`.
pub open spec fn handshake_parse(s: Seq<u8>) -> Result<(HandshakeView, nat), NetworkError> {
    if s.len() < 6 {
        Err(NetworkError::EndOfStream)
    } else if s.take(6) != handshake_magic() {
        Err(NetworkError::Handshake(HandshakeError::InvalidMagicNumber))
    } else {
        match integer_parse(s.skip(6), 4) {
            Err(error) => Err(error),
            Ok((ntp_id, _)) => match integer_parse(s.skip(10), 4) {
                Err(error) => Err(error),
                Ok((first, _)) => match integer_parse(s.skip(14), 4) {
                    Err(error) => Err(error),
                    Ok((second, _)) => if s.len() < 34 {
                        Err(NetworkError::EndOfStream)
                    } else {
                        match version_parse(s.skip(34)) {
                            Err(error) => Err(error),
                            Ok((version, length)) => Ok(
                                (
                                    HandshakeView {
                                        checksum: s.subrange(18, 34),
                                        ntp_id: ntp_id as u32,
                                        sequences: (first as u32, second as u32),
                                        version,
                                    },
                                    34 + length,
                                ),
                            ),
                        }
                    },
                },
            },
        }
    }
}

impl Handshake {
    /// Tests if the two handshakes are compatible.
    pub fn is_compatible(&self, other: &Handshake) -> (result: bool)
        ensures
            result == (self.checksum@ == other.checksum@),
    {
        for i in 0..16
            invariant
                forall|j: int| 0 <= j < i ==> self.checksum@[j] == other.checksum@[j],
        {
            if self.checksum[i] != other.checksum[i] {
                return false;
            }
        }
        proof {
            assert(self.checksum@ =~= other.checksum@);
        }
        true
    }
}

impl Encode for Handshake {
    open spec fn encodable(&self) -> bool {
        true
    }

    open spec fn encoding(&self) -> Seq<u8> {
        handshake_bytes(self@)
    }

    fn encode(&self, vector: &mut Vec<u8>) {
        let ghost start = vector@;
        // write magic number
        write_char('E', vector);
        write_char('G', vector);
        write_char('G', vector);
        write_char('I', vector);
        write_char('N', vector);
        write_char('E', vector);
        proof {
            assert(vector@ =~= start + handshake_magic());
        }

        // write ntp id
        write_u32(self.ntp_id, vector);

        // write sequences
        write_u32(self.sequences.0, vector);
        write_u32(self.sequences.1, vector);
        let ghost before_checksum = vector@;

        // write network checksum
        for i in 0..16
            invariant
                vector@ == before_checksum + self.checksum@.take(i as int),
        {
            write_u8(self.checksum[i], vector);
            proof {
                assert(self.checksum@.take(i + 1) =~= self.checksum@.take(i as int).push(self.checksum@[i as int]));
            }
        }
        proof {
            assert(self.checksum@.take(16) =~= self.checksum@);
        }

        self.version.encode(vector);
        proof {
            assert(vector@ =~= start + handshake_bytes(self@));
        }
    }
}

impl StreamDecode for Handshake {
    open spec fn decodable(s: Seq<u8>) -> bool {
        true
    }

    open spec fn parse(s: Seq<u8>) -> Result<(HandshakeView, nat), NetworkError> {
        handshake_parse(s)
    }

    fn decode(stream: &mut NetworkReadStream) -> (result: Result<(Self, StreamPosition), NetworkError>) {
        let ghost start = *stream;
        let ghost s = start.remaining();
        // read the "EGGINE" magic number
        let mut magic_number: Vec<u8> = Vec::new();
        for i in 0..6
            invariant
                stream.wf(),
                stream.buffer() == start.buffer(),
                start == *old(stream),
                start.wf(),
                s == start.remaining(),
                stream.position() == start.position() + i,
                s.len() >= i,
                magic_number@ == s.take(i as int),
        {
            let ghost before = *stream;
            proof {
                lemma_integer_parse_bound(before.remaining(), 1);
                reveal_with_fuel(crate::carton::stream::byte_pow, 2);
                reveal_with_fuel(crate::carton::stream::le_value, 2);
                assert(s.skip(i as int) =~= before.remaining()) by {
                    lemma_advance(start, before, i as nat);
                }
            }
            let character = match stream.read_char() {
                Ok((character, _)) => character,
                Err(error) => return Err(error),
            };
            proof {
                let r = before.remaining();
                assert(r.take(1).drop_first() =~= Seq::<u8>::empty());
                assert(le_value_one(r));
                assert(s.take(i + 1) =~= s.take(i as int).push(s[i as int]));
            }
            magic_number.push(character as u8);
        }

        let expected: [u8; 6] = [69, 71, 71, 73, 78, 69];
        let mut matches = true;
        for i in 0..6
            invariant
                magic_number@.len() == 6,
                matches == (forall|j: int| 0 <= j < i ==> magic_number@[j] == expected@[j]),
        {
            if magic_number[i] != expected[i] {
                matches = false;
            }
        }
        proof {
            assert(expected@ =~= handshake_magic());
            if matches {
                assert(magic_number@ =~= handshake_magic());
            } else {
                assert(magic_number@ != handshake_magic());
            }
        }
        if !matches {
            return Err(NetworkError::Handshake(HandshakeError::InvalidMagicNumber));
        }
        proof {
            lemma_advance(start, *stream, 6);
            lemma_integer_parse_bound(s.skip(6), 4);
            lemma_integer_parse_bound(s.skip(10), 4);
            lemma_integer_parse_bound(s.skip(14), 4);
            crate::carton::stream::lemma_byte_pow_8();
        }

        // read ntp id
        let ntp_id = match stream.read_u32() {
            Ok((number, _)) => number,
            Err(error) => return Err(error),
        };
        proof {
            lemma_advance(start, *stream, 10);
        }

        // read the sequence numbers
        let sequence1 = match stream.read_u32() {
            Ok((number, _)) => number,
            Err(error) => return Err(error),
        };
        proof {
            lemma_advance(start, *stream, 14);
        }
        let sequence2 = match stream.read_u32() {
            Ok((number, _)) => number,
            Err(error) => return Err(error),
        };
        proof {
            lemma_advance(start, *stream, 18);
        }

        // read the checksum
        let mut checksum: [u8; 16] = [0; 16];
        for i in 0..16
            invariant
                stream.wf(),
                stream.buffer() == start.buffer(),
                start == *old(stream),
                start.wf(),
                s == start.remaining(),
                s.len() >= 18,
                s.take(6) == handshake_magic(),
                integer_parse(s.skip(6), 4) == Ok::<(nat, nat), NetworkError>((ntp_id as nat, 4)),
                integer_parse(s.skip(10), 4) == Ok::<(nat, nat), NetworkError>((sequence1 as nat, 4)),
                integer_parse(s.skip(14), 4) == Ok::<(nat, nat), NetworkError>((sequence2 as nat, 4)),
                stream.position() == start.position() + 18 + i,
                checksum@.len() == 16,
                forall|j: int| 0 <= j < i ==> checksum@[j] == s[18 + j],
        {
            let ghost before = *stream;
            proof {
                lemma_integer_parse_bound(before.remaining(), 1);
                reveal_with_fuel(crate::carton::stream::byte_pow, 2);
                lemma_advance(start, before, (18 + i) as nat);
            }
            let byte = match stream.read_u8() {
                Ok((byte, _)) => byte,
                Err(error) => return Err(error),
            };
            proof {
                let r = before.remaining();
                assert(r.take(1).drop_first() =~= Seq::<u8>::empty());
                assert(le_value_one(r));
                assert(r[0] == s[18 + i]);
            }
            checksum[i] = byte;
        }
        proof {
            lemma_advance(start, *stream, 34);
            assert(checksum@ =~= s.subrange(18, 34));
        }

        let (version, position) = match stream.decode::<Version>() {
            Ok(pair) => pair,
            Err(error) => return Err(error),
        };

        Ok((Handshake { checksum, ntp_id, sequences: (sequence1, sequence2), version }, position))
    }
}

/// Whether a version can be sent: an ASCII branch name of 3 to 32 characters.
pub open spec fn sendable_version(version: VersionView) -> bool {
    &&& vstd::utf8::is_ascii_chars(version.branch)
    &&& BRANCH_MINIMUM_LENGTH <= version.branch.len() <= BRANCH_MAXIMUM_LENGTH
}

/// Decoding a version's bytes gives back the version, whatever follows it.
pub proof fn version_roundtrip(version: VersionView, rest: Seq<u8>)
    requires
        sendable_version(version),
    ensures
        version_parse(version_bytes(version) + rest) == Ok::<(VersionView, nat), NetworkError>(
            (version, version_bytes(version).len()),
        ),
{
    let s = version_bytes(version) + rest;
    let branch = version.branch;
    crate::carton::stream::lemma_byte_pow_8();
    lemma_integer_parse_bytes(version.major as nat, 2, s.skip(2));
    lemma_integer_parse_bytes(version.minor as nat, 2, s.skip(4));
    lemma_integer_parse_bytes(version.revision as nat, 2, s.skip(6));
    crate::carton::stream::lemma_le_bytes_len(version.major as nat, 2);
    crate::carton::stream::lemma_le_bytes_len(version.minor as nat, 2);
    crate::carton::stream::lemma_le_bytes_len(version.revision as nat, 2);
    assert(s =~= le_bytes(version.major as nat, 2) + s.skip(2));
    assert(s.skip(2) =~= le_bytes(version.minor as nat, 2) + s.skip(4));
    assert(s.skip(4) =~= le_bytes(version.revision as nat, 2) + s.skip(6));
    assert(s.skip(6) =~= string_bytes(branch) + rest);
    reveal_with_fuel(crate::carton::stream::group_pow, 5);
    crate::carton::stream::string_roundtrip(branch, rest);
    vstd::utf8::is_ascii_chars_encode_utf8(branch);
    crate::carton::stream::vlq_roundtrip(branch.len(), branch.map_values(|c: char| c as u8) + rest);
    assert(string_bytes(branch) + rest =~= crate::carton::stream::vlq_bytes(branch.len(), 4) + (branch.map_values(
        |c: char| c as u8,
    ) + rest));
}

/// Decoding a handshake's bytes gives back the handshake, whatever follows it.
pub proof fn handshake_roundtrip(handshake: HandshakeView, rest: Seq<u8>)
    requires
        handshake.checksum.len() == 16,
        sendable_version(handshake.version),
    ensures
        Handshake::parse(handshake_bytes(handshake) + rest) == Ok::<(HandshakeView, nat), NetworkError>(
            (handshake, handshake_bytes(handshake).len()),
        ),
{
    let s = handshake_bytes(handshake) + rest;
    crate::carton::stream::lemma_byte_pow_8();
    crate::carton::stream::lemma_le_bytes_len(handshake.ntp_id as nat, 4);
    crate::carton::stream::lemma_le_bytes_len(handshake.sequences.0 as nat, 4);
    crate::carton::stream::lemma_le_bytes_len(handshake.sequences.1 as nat, 4);
    assert(s.take(6) =~= handshake_magic());
    lemma_integer_parse_bytes(handshake.ntp_id as nat, 4, s.skip(10));
    lemma_integer_parse_bytes(handshake.sequences.0 as nat, 4, s.skip(14));
    lemma_integer_parse_bytes(handshake.sequences.1 as nat, 4, s.skip(18));
    assert(s.skip(6) =~= le_bytes(handshake.ntp_id as nat, 4) + s.skip(10));
    assert(s.skip(10) =~= le_bytes(handshake.sequences.0 as nat, 4) + s.skip(14));
    assert(s.skip(14) =~= le_bytes(handshake.sequences.1 as nat, 4) + s.skip(18));
    assert(s.subrange(18, 34) =~= handshake.checksum);
    assert(s.skip(34) =~= version_bytes(handshake.version) + rest);
    version_roundtrip(handshake.version, rest);
}

/// A handshake with a 16 byte checksum and a sendable version takes at most 80 bytes.
pub proof fn lemma_handshake_bytes_len(handshake: HandshakeView)
    requires
        handshake.checksum.len() == 16,
        sendable_version(handshake.version),
    ensures
        handshake_bytes(handshake).len() <= 80,
{
    let branch = handshake.version.branch;
    crate::carton::stream::lemma_le_bytes_len(handshake.ntp_id as nat, 4);
    crate::carton::stream::lemma_le_bytes_len(handshake.sequences.0 as nat, 4);
    crate::carton::stream::lemma_le_bytes_len(handshake.sequences.1 as nat, 4);
    crate::carton::stream::lemma_le_bytes_len(handshake.version.major as nat, 2);
    crate::carton::stream::lemma_le_bytes_len(handshake.version.minor as nat, 2);
    crate::carton::stream::lemma_le_bytes_len(handshake.version.revision as nat, 2);
    vstd::utf8::is_ascii_chars_encode_utf8(branch);
    let length = crate::carton::stream::writing::utf8_len(branch);
    assert(length == branch.len());
    crate::carton::stream::lemma_vlq_max();
    crate::carton::stream::vlq_roundtrip(length, Seq::empty());
    crate::carton::file_stream::lemma_vlq_decode_length(
        crate::carton::stream::vlq_bytes(length, 4) + Seq::<u8>::empty(),
        4,
    );
}

/// The value of a one-byte little-endian number is its byte.
pub open spec fn le_value_one(s: Seq<u8>) -> bool {
    s.len() >= 1 ==> crate::carton::stream::le_value(s.take(1)) == s[0] as nat
}

} // verus!
