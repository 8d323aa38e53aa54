use vstd::prelude::*;

use super::error::CartonError;
use super::file_stream::{
    advance, lemma_window_inside, utf8_string_bytes, vlq_at, window, write_utf8_string, write_vector, FileReadStream,
    StreamPosition,
};
use super::metadata::{encodable_tree, encode_metadata, tree_of, value_encoding, FileMetadata, MetadataValue};
use super::stream::writing::{write_u16, write_u64, write_u8};
use super::stream::{le_bytes, le_value};
use super::string_table::{StringTable, StringTableView};

verus! {

/// The zstd frame that compressing `data` at `level` without a dictionary gives.
pub uninterp spec fn zstd_frame(level: i32, data: Seq<u8>) -> Seq<u8>;

/// The zstd frame that compressing `data` at `level` with `dictionary` gives.
pub uninterp spec fn zstd_dictionary_frame(level: i32, dictionary: Seq<u8>, data: Seq<u8>) -> Seq<u8>;

/// Compresses `data` into one zstd frame at `level`: `zstd::stream::write::Encoder::new` over an empty vector,
/// `std::io::Write::write_all`, then `Encoder::finish`. Claimed: the bytes are the frame that `zstd_frame` names for
/// these arguments. When zstd fails is not claimed.
#[verifier::external_body]
fn zstd_compress(level: i32, data: &[u8]) -> (result: Result<Vec<u8>, std::io::Error>)
    ensures
        result matches Ok(bytes) ==> bytes@ == zstd_frame(level, data@),
{
    let mut encoder = zstd::stream::write::Encoder::new(Vec::new(), level)?;
    std::io::Write::write_all(&mut encoder, data)?;
    encoder.finish()
}

/// Compresses `data` into one zstd frame at `level` with `dictionary`: `zstd::stream::write::Encoder::with_dictionary`
/// over an empty vector, `std::io::Write::write_all`, then `Encoder::finish`. Claimed: the bytes are the frame that
/// `zstd_dictionary_frame` names for these arguments. When zstd fails is not claimed.
#[verifier::external_body]
fn zstd_compress_with_dictionary(level: i32, dictionary: &[u8], data: &[u8]) -> (result: Result<Vec<u8>, std::io::Error>)
    ensures
        result matches Ok(bytes) ==> bytes@ == zstd_dictionary_frame(level, dictionary@, data@),
{
    let mut encoder = zstd::stream::write::Encoder::with_dictionary(Vec::new(), level, dictionary)?;
    std::io::Write::write_all(&mut encoder, data)?;
    encoder.finish()
}

/// Represents the compression algorithm used for a file.
#[derive(Debug)]
pub enum Compression {
    /// No compression. ID is encoded as 0.
    Uncompressed,
    /// ZStd compression with specified level and dictionary. ID is encoded as 1.
    ZStd(i8, Vec<u8>),
}

/// What a compression setting holds.
pub enum CompressionView {
    Uncompressed,
    ZStd(i8, Seq<u8>),
}

impl View for Compression {
    type V = CompressionView;

    open spec fn view(&self) -> CompressionView {
        match self {
            Compression::Uncompressed => CompressionView::Uncompressed,
            Compression::ZStd(level, dictionary) => CompressionView::ZStd(*level, dictionary@),
        }
    }
}

/// Compression is encoded as a 2 byte ID with a varying amount of bytes that describe the configuration settings of
/// the compression algorithm: for zstd the level, the dictionary's length in 2 bytes (its length modulo 65536), and
/// the dictionary.
pub open spec fn compression_bytes(compression: CompressionView) -> Seq<u8> {
    match compression {
        CompressionView::Uncompressed => le_bytes(0, 2),
        CompressionView::ZStd(level, dictionary) => le_bytes(1, 2) + seq![level as u8] + le_bytes(
            dictionary.len() % 65536,
            2,
        ) + dictionary,
    }
}

impl Compression {
    /// Writes the compression's encoding.
    pub fn encode(&self, vector: &mut Vec<u8>)
        ensures
            final(vector)@ == old(vector)@ + compression_bytes(self@),
    {
        match self {
            Compression::Uncompressed => {
                write_u16(0, vector);
            },
            Compression::ZStd(level, dictionary) => {
                write_u16(1, vector);
                write_u8(#[verifier::truncate] (*level as u8), vector);
                let length = dictionary.len();
                proof {
                    assert((length as u16) as nat == length as nat % 65536) by (bit_vector);
                }
                write_u16(#[verifier::truncate] (length as u16), vector);
                write_vector(dictionary.as_slice(), vector);
            },
        }
        proof {
            assert(final(vector)@ =~= old(vector)@ + compression_bytes(self@));
        }
    }

    /// Reads a compression's encoding.
    pub fn decode(stream: &mut FileReadStream) -> (result: Result<(Compression, StreamPosition), CartonError>)
        ensures
            final(stream).data() == old(stream).data(),
            match compression_parse(old(stream).data(), old(stream).cursor()) {
                Some((compression, end)) => result matches Ok((decoded, position)) && decoded@ == compression
                    && final(stream).cursor() == end && position == end,
                None => result matches Err(CartonError::InvalidCompression),
            },
    {
        let (id, new_position) = stream.read_u16();
        match id {
            0 => Ok((Compression::Uncompressed, new_position)),
            1 => {
                let (level, _) = stream.read_u8();
                let (dictionary_length, _) = stream.read_u16();
                let (dictionary, new_position) = stream.read_vector(dictionary_length as usize);
                Ok((Compression::ZStd(#[verifier::truncate] (level as i8), dictionary), new_position))
            },
            _ => Err(CartonError::InvalidCompression),
        }
    }
}

/// The compression setting read from a file at `cursor` and the cursor after it, or nothing when the ID is neither 0
/// nor 1.
pub open spec fn compression_parse(data: Seq<u8>, cursor: nat) -> Option<(CompressionView, nat)> {
    let id = le_value(window(data, cursor, 2));
    let after_id = advance(data.len(), cursor, 2);
    if id == 0 {
        Some((CompressionView::Uncompressed, after_id))
    } else if id == 1 {
        let level = window(data, after_id, 1)[0];
        let after_level = advance(data.len(), after_id, 1);
        let length = le_value(window(data, after_level, 2));
        let after_length = advance(data.len(), after_level, 2);
        Some(
            (
                CompressionView::ZStd(level as i8, window(data, after_length, length)),
                advance(data.len(), after_length, length),
            ),
        )
    } else {
        None
    }
}

/// Reading a compression setting where one was written gives it back, for a zstd dictionary shorter than 65536 bytes.
#[verifier::spinoff_prover]
#[verifier::rlimit(50)]
pub proof fn compression_roundtrip(data: Seq<u8>, cursor: nat, compression: CompressionView)
    requires
        compression matches CompressionView::ZStd(_, dictionary) ==> dictionary.len() < 65536,
        cursor + compression_bytes(compression).len() <= data.len(),
        data.subrange(cursor as int, (cursor + compression_bytes(compression).len()) as int) == compression_bytes(
            compression,
        ),
    ensures
        compression_parse(data, cursor) == Some((compression, cursor + compression_bytes(compression).len())),
{
    let bytes = compression_bytes(compression);
    super::stream::lemma_le_bytes_len(0, 2);
    super::stream::lemma_le_bytes_len(1, 2);
    super::stream::lemma_le_value_of_bytes(0, 2);
    super::stream::lemma_le_value_of_bytes(1, 2);
    super::stream::lemma_byte_pow_8();
    lemma_window_inside(data, cursor, 2);
    assert(data.subrange(cursor as int, (cursor + 2) as int) =~= bytes.take(2)) by {
        assert forall|i: int| 0 <= i < 2 implies data[cursor + i] == bytes[i] by {
            assert(data.subrange(cursor as int, (cursor + bytes.len()) as int)[i] == bytes[i]);
        }
    }
    match compression {
        CompressionView::Uncompressed => {
            assert(bytes.take(2) =~= super::stream::le_bytes(0, 2));
        },
        CompressionView::ZStd(level, dictionary) => {
            let length = dictionary.len();
            super::stream::lemma_le_bytes_len(length % 65536, 2);
            super::stream::lemma_le_value_of_bytes(length % 65536, 2);
            assert(bytes.take(2) =~= super::stream::le_bytes(1, 2));
            lemma_window_inside(data, cursor + 2, 1);
            assert(data[(cursor + 2) as int] == bytes[2]) by {
                assert(data.subrange(cursor as int, (cursor + bytes.len()) as int)[2] == bytes[2]);
            }
            assert(((level as u8) as i8) == level) by (bit_vector);
            lemma_window_inside(data, cursor + 3, 2);
            assert(data.subrange((cursor + 3) as int, (cursor + 5) as int) =~= super::stream::le_bytes(
                length % 65536,
                2,
            )) by {
                assert forall|i: int| 3 <= i < 5 implies data[cursor + i] == bytes[i] by {
                    assert(data.subrange(cursor as int, (cursor + bytes.len()) as int)[i] == bytes[i]);
                }
                assert(bytes.subrange(3, 5) =~= super::stream::le_bytes(length % 65536, 2));
            }
            lemma_window_inside(data, cursor + 5, length);
            assert(data.subrange((cursor + 5) as int, (cursor + 5 + length) as int) =~= dictionary) by {
                assert forall|i: int| 5 <= i < 5 + length implies data[cursor + i] == bytes[i] by {
                    assert(data.subrange(cursor as int, (cursor + bytes.len()) as int)[i] == bytes[i]);
                }
                assert(bytes.subrange(5, (5 + length) as int) =~= dictionary);
            }
        },
    }
}

/// Represents a file in a carton.
#[derive(Debug)]
pub struct File {
    /// The compression format of the file.
    compression: Compression,
    /// The filename taken from the input file structure during encoding.
    file_name: String,
    /// The metadata for this file.
    metadata: Option<FileMetadata>,
    /// The size of the file: its size in the carton, then its original size.
    size: (u64, u64),
}

/// Represents a problem with reading a file.
#[derive(Clone, Copy, Debug, PartialEq, Eq, Structural)]
pub enum FileError {
    /// The specified path does not exist on disk.
    DoesntExist,
}

impl File {
    pub closed spec fn compression_spec(&self) -> CompressionView {
        self.compression@
    }

    pub closed spec fn file_name_spec(&self) -> Seq<char> {
        self.file_name@
    }

    pub closed spec fn metadata_spec(&self) -> Option<FileMetadata> {
        self.metadata
    }

    pub closed spec fn size_spec(&self) -> (u64, u64) {
        self.size
    }

    /// A file representation for a file on disk: `exists` tells whether it exists, `metadata` is what its `.toml`
    /// companion file describes if it has one, and `size` is its size in bytes. Files are stored uncompressed.
    pub fn from_file(file_name: &str, exists: bool, metadata: Option<FileMetadata>, size: u64) -> (result: Result<
        File,
        FileError,
    >)
        ensures
            !exists ==> result == Err::<File, FileError>(FileError::DoesntExist),
            exists ==> (result matches Ok(file) && file.compression_spec() == CompressionView::Uncompressed
                && file.file_name_spec() == file_name@ && file.metadata_spec() == metadata && file.size_spec() == (
            size,
            size,
            )),
    {
        if !exists {
            return Err(FileError::DoesntExist);
        }
        Ok(File { compression: Compression::Uncompressed, file_name: file_name.to_owned(), metadata, size: (size, size) })
    }

    /// Create a file from the decode intermediate representation; metadata, where there is any, describes the file.
    pub fn from_intermediate(intermediate: IntermediateFile, metadata: Option<MetadataValue>) -> (file: File)
        ensures
            file.compression_spec() == intermediate.compression@,
            file.file_name_spec() == intermediate.file_name@,
            metadata is None ==> file.metadata_spec() is None,
            metadata matches Some(value) ==> file.metadata_spec() matches Some(described) && described.value_spec()
                == value && described.file_name_spec() == intermediate.file_name@,
            file.size_spec() == intermediate.size,
    {
        let metadata = match metadata {
            Some(value) => Some(FileMetadata::from_toml_value(intermediate.file_name.as_str(), value)),
            None => None,
        };
        File {
            compression: intermediate.compression,
            file_name: intermediate.file_name,
            metadata,
            size: intermediate.size,
        }
    }

    /// Get the file's compression level.
    pub fn get_compression(&self) -> (compression: &Compression)
        ensures
            compression@ == self.compression_spec(),
    {
        &self.compression
    }

    /// Get the file's name.
    pub fn get_file_name(&self) -> (file_name: &str)
        ensures
            file_name@ == self.file_name_spec(),
    {
        self.file_name.as_str()
    }

    /// Get the file's metadata.
    pub fn get_metadata(&self) -> (metadata: &Option<FileMetadata>)
        ensures
            *metadata == self.metadata_spec(),
    {
        &self.metadata
    }

    /// Get the file's original size, before carton compression.
    pub fn get_size(&self) -> (size: u64)
        ensures
            size == self.size_spec().1,
    {
        self.size.1
    }

    /// Gets the file's compressed size.
    pub fn get_compressed_size(&self) -> (size: u64)
        ensures
            size == self.size_spec().0,
    {
        self.size.0
    }
}

/// What a file's contents become when they are stored with a compression setting: the contents themselves without
/// compression; with zstd, the frame at the setting's level, made with the setting's dictionary when it has one.
pub open spec fn compressed(compression: CompressionView, data: Seq<u8>) -> Seq<u8> {
    match compression {
        CompressionView::Uncompressed => data,
        CompressionView::ZStd(level, dictionary) => if dictionary.len() > 0 {
            zstd_dictionary_frame(level as i32, dictionary, data)
        } else {
            zstd_frame(level as i32, data)
        },
    }
}

/// Compresses a file's contents as its compression setting says. Without compression the contents stay as they are.
/// With zstd, the contents are compressed at the setting's level, with the setting's dictionary when it has one.
pub fn compress_file_data(compression: &Compression, data: Vec<u8>) -> (result: Result<Vec<u8>, CartonError>)
    ensures
        result matches Ok(bytes) ==> bytes@ == compressed(compression@, data@),
        compression@ is Uncompressed ==> result is Ok,
        result is Err ==> compression@ is ZStd && result matches Err(CartonError::FileError(_)),
{
    match compression {
        Compression::Uncompressed => Ok(data),
        Compression::ZStd(level, dictionary) => {
            let output = if dictionary.len() > 0 {
                zstd_compress_with_dictionary(*level as i32, dictionary.as_slice(), data.as_slice())
            } else {
                zstd_compress(*level as i32, data.as_slice())
            };
            match output {
                Ok(output) => Ok(output),
                Err(error) => Err(CartonError::FileError(error)),
            }
        },
    }
}

/// The bytes that describe a stored file after its metadata: compression, size in the carton, original size, name,
/// then the stored contents.
pub open spec fn file_record_bytes(
    compression: CompressionView,
    stored_size: u64,
    size: u64,
    file_name: Seq<char>,
    data: Seq<u8>,
) -> Seq<u8> {
    compression_bytes(compression) + le_bytes(stored_size as nat, 8) + le_bytes(size as nat, 8) + utf8_string_bytes(
        file_name,
    ) + data
}

/// Writes a file's description and its stored contents `data`, and records the stored size. Returns where the
/// contents start.
pub fn write_file_record(vector: &mut Vec<u8>, file: &mut File, data: &Vec<u8>) -> (file_position: u64)
    ensures
        final(file).size_spec() == (data@.len() as u64, old(file).size_spec().1),
        final(file).compression_spec() == old(file).compression_spec(),
        final(file).file_name_spec() == old(file).file_name_spec(),
        final(file).metadata_spec() == old(file).metadata_spec(),
        final(vector)@ == old(vector)@ + file_record_bytes(
            old(file).compression_spec(),
            data@.len() as u64,
            old(file).size_spec().1,
            old(file).file_name_spec(),
            data@,
        ),
        file_position == final(vector)@.len() - data@.len(),
{
    // update file's stored size
    file.size = (data.len() as u64, file.size.1);

    file.compression.encode(vector);

    write_u64(file.size.0, vector);
    write_u64(file.size.1, vector);

    write_utf8_string(file.file_name.as_str(), vector);

    let file_position = vector.len() as u64;

    write_vector(data.as_slice(), vector);
    proof {
        assert(final(vector)@ =~= old(vector)@ + file_record_bytes(
            old(file).compression_spec(),
            data@.len() as u64,
            old(file).size_spec().1,
            old(file).file_name_spec(),
            data@,
        ));
    }
    file_position
}

/// Intermediate representation of a `File` object.
#[derive(Debug)]
pub struct IntermediateFile {
    pub compression: Compression,
    pub file_name: String,
    pub file_offset: u64,
    pub size: (u64, u64),
}

/// Decodes a stored file's description; the cursor is left where the stored contents start.
pub fn decode_file(stream: &mut FileReadStream) -> (result: Result<(IntermediateFile, StreamPosition), CartonError>)
    ensures
        final(stream).data() == old(stream).data(),
        match compression_parse(old(stream).data(), old(stream).cursor()) {
            None => result matches Err(CartonError::InvalidCompression),
            Some((compression, after_compression)) => {
                let data = old(stream).data();
                let stored_size = le_value(window(data, after_compression, 8));
                let after_stored = advance(data.len(), after_compression, 8);
                let size = le_value(window(data, after_stored, 8));
                let after_size = advance(data.len(), after_stored, 8);
                let (length, header) = vlq_at(data, after_size);
                let body = advance(data.len(), after_size, header);
                let name = window(data, body, length);
                let end = advance(data.len(), body, length);
                &&& vstd::utf8::valid_utf8(name) ==> (result matches Ok((file, position)) && file.compression@
                    == compression && file.size == (stored_size as u64, size as u64) && file.file_name@
                    == vstd::utf8::decode_utf8(name) && file.file_offset == end - old(stream).cursor()
                    && position == end && final(stream).cursor() == end)
                &&& !vstd::utf8::valid_utf8(name) ==> result matches Err(CartonError::FromUtf8(_))
            },
        },
{
    let start = stream.get_position();

    // read compression level
    let (compression, _) = match Compression::decode(stream) {
        Ok(pair) => pair,
        Err(error) => return Err(error),
    };

    // read file size
    let (size, _) = stream.read_u64();
    let (original_size, _) = stream.read_u64();

    // read file name
    let (name, _) = match stream.read_string() {
        Ok(pair) => pair,
        Err(error) => return Err(error),
    };

    // set the file offset, since our vector slice is now positioned at the beginning of the file
    let position = stream.get_position();
    let intermediate = IntermediateFile {
        compression,
        file_name: name,
        file_offset: position - start,
        size: (size, original_size),
    };

    Ok((intermediate, position))
}

/// The bytes of a file's metadata, and the string table afterwards: the metadata value's encoding, or nothing.
pub open spec fn metadata_encoding(metadata: Option<FileMetadata>, table: StringTableView) -> (Seq<u8>, StringTableView) {
    match metadata {
        Some(metadata) => value_encoding(tree_of(metadata.value_spec()), table),
        None => (Seq::empty(), table),
    }
}

/// Whether a file's metadata can be encoded.
pub open spec fn encodable_metadata(metadata: Option<FileMetadata>) -> bool {
    match metadata {
        Some(metadata) => encodable_tree(tree_of(metadata.value_spec())),
        None => true,
    }
}

/// Writes a file into a carton: its metadata, then its description and stored contents. `data` is the file's contents;
/// they are stored as the file's compression says. Returns where the metadata and the stored contents start.
pub fn encode_file(vector: &mut Vec<u8>, file: &mut File, data: Vec<u8>, string_table: &mut StringTable) -> (result:
    Result<(u64, u64), CartonError>)
    requires
        old(string_table).wf(),
        encodable_metadata(old(file).metadata_spec()),
    ensures
        final(string_table).wf(),
        final(string_table).view() == metadata_encoding(old(file).metadata_spec(), old(string_table).view()).1,
        final(file).compression_spec() == old(file).compression_spec(),
        final(file).file_name_spec() == old(file).file_name_spec(),
        final(file).metadata_spec() == old(file).metadata_spec(),
        final(file).size_spec().1 == old(file).size_spec().1,
        match result {
            Ok((metadata_position, file_position)) => {
                let meta = metadata_encoding(old(file).metadata_spec(), old(string_table).view()).0;
                let stored = final(vector)@.skip(file_position as int);
                &&& metadata_position == old(vector)@.len()
                &&& file_position <= final(vector)@.len()
                &&& final(file).size_spec().0 == stored.len()
                &&& final(vector)@ == old(vector)@ + meta + file_record_bytes(
                    old(file).compression_spec(),
                    stored.len() as u64,
                    old(file).size_spec().1,
                    old(file).file_name_spec(),
                    stored,
                )
                &&& stored == compressed(old(file).compression_spec(), data@)
            },
            Err(error) => old(file).compression_spec() is ZStd && error is FileError,
        },
{
    let metadata_position = vector.len() as u64;
    let ghost start = vector@;

    match &file.metadata {
        Some(metadata) => encode_metadata(vector, metadata, string_table),
        None => {},
    }
    let ghost after_metadata = vector@;

    let data = match compress_file_data(&file.compression, data) {
        Ok(data) => data,
        Err(error) => return Err(error),
    };

    let file_position = write_file_record(vector, file, &data);
    proof {
        assert(vector@.skip(file_position as int) =~= data@);
        assert(vector@ =~= start + metadata_encoding(old(file).metadata_spec(), old(string_table).view()).0
            + file_record_bytes(old(file).compression_spec(), data@.len() as u64, old(file).size_spec().1,
            old(file).file_name_spec(), data@));
    }
    Ok((metadata_position, file_position))
}

} // verus!
