use vstd::prelude::*;

use super::carton_file_stream::CartonFileReadStream;
use super::error::CartonError;
use super::file::{
    compression_bytes, compression_parse, compression_roundtrip, decode_file, encodable_metadata, encode_file,
    compressed, file_record_bytes, metadata_encoding, CompressionView, File, IntermediateFile,
};
use super::file_stream::{
    advance, lemma_subrange_within, lemma_window_inside, utf8_string_bytes, utf8_string_roundtrip, vlq_at, window,
    FileReadStream, StreamPosition,
};
use super::file_table::{
    file_table_bytes, file_table_roundtrip, lemma_rows_parse_forward, rows_parse, set_position, short_names,
    FileTable, PositionMap, TableID,
};
use super::metadata::{
    aligned_table, consistent_table, decode_value, lemma_consistent_distinct, lemma_value_encoding_table, is_unsupported_at, meets_unsupported, metadata_value_roundtrip, remaining,
    restorable_tree, tree_of, value_parse, FileMetadata, MetadataTree, MetadataValue, ValueError,
};
use super::stream::{le_bytes, le_value, vlq_max};
use super::stream::writing::{write_char, write_u64, write_u8};
use crate::table::{distinct_keys, entries_map, lemma_entries_map_get};
use super::string_table::{
    archive_strings_parse, archive_table_bytes, archive_table_roundtrip, lemma_archive_strings_parse_forward,
    short_strings, string_table_lookups_agree, table_of, table_of_distinct_strings, StringTable, StringTableView,
};

verus! {

/// The version of the carton encoding.
pub const CARTON_VERSION: u8 = 2;

/// The magic number that starts a carton: `CARTON`, one byte per character.
pub open spec fn carton_magic() -> Seq<u8> {
    seq![67u8, 65u8, 82u8, 84u8, 79u8, 78u8]
}

/// Representation of a carton. Cartons are an archive file format designed for efficient storage of video game data.
/// Features include compression of files, a metadata database for looking up files during runtime, and streaming
/// files in discrete chunks for audio streams. Cartons are designed to be constructed from a directory which includes
/// data to be included in a video game. The carton preserves the file structure and assigns imported files metadata
/// read from TOML files.
#[derive(Debug)]
pub struct Carton {
    /// The bytes of the carton file, once one was read.
    pub file: Option<Vec<u8>>,
    /// Keeps track of files in the carton.
    pub file_table: FileTable,
    /// Stores strings used throughout the carton.
    pub string_table: StringTable,
    /// Version of the carton encoding.
    pub version: u8,
}

impl Default for Carton {
    fn default() -> (carton: Self)
        ensures
            carton.wf(),
            carton.file_spec() is None,
            carton.file_table_spec().files_spec() == Seq::<File>::empty(),
            carton.file_table_spec().metadata_positions_spec().entries() == Seq::<(Seq<char>, u64)>::empty(),
            carton.file_table_spec().file_positions_spec().entries() == Seq::<(Seq<char>, u64)>::empty(),
            carton.string_table.view() == table_of(Seq::empty()),
            carton.version == CARTON_VERSION,
    {
        Carton {
            file: None,
            file_table: FileTable::new(),
            string_table: StringTable::new(),
            version: CARTON_VERSION,
        }
    }
}

/// Overwrites the 8 bytes at `position` with the little-endian encoding of `number`.
fn patch_u64(vector: &mut Vec<u8>, position: usize, number: u64)
    requires
        position + 8 <= old(vector)@.len(),
    ensures
        final(vector)@ == old(vector)@.take(position as int) + super::stream::le_bytes(number as nat, 8) + old(
            vector,
        )@.skip(position + 8),
{
    let mut bytes: Vec<u8> = Vec::new();
    write_u64(number, &mut bytes);
    proof {
        super::stream::lemma_le_bytes_len(number as nat, 8);
    }
    let ghost start = vector@;
    let length = vector.len();
    for i in 0..8
        invariant
            length == start.len(),
            bytes@ == super::stream::le_bytes(number as nat, 8),
            bytes@.len() == 8,
            start == old(vector)@,
            position + 8 <= start.len(),
            vector@.len() == start.len(),
            vector@ == start.take(position as int) + bytes@.take(i as int) + start.skip(position + i),
    {
        vector.set(position + i, bytes[i]);
        proof {
            assert(vector@ =~= start.take(position as int) + bytes@.take(i + 1) + start.skip(position + i + 1));
        }
    }
    proof {
        assert(bytes@.take(8) =~= bytes@);
    }
}

/// The string table after the metadata of `files` is encoded into `table`, one file after another.
pub open spec fn table_after_files(files: Seq<File>, table: StringTableView) -> StringTableView
    decreases files.len(),
{
    if files.len() == 0 {
        table
    } else {
        metadata_encoding(files.last().metadata_spec(), table_after_files(files.drop_last(), table)).1
    }
}

/// The bytes of `files` as `encode_mut` writes them one after another, `stored[i]` being what the contents of the
/// `i`th file became.
pub open spec fn files_bytes(files: Seq<File>, stored: Seq<Seq<u8>>, table: StringTableView) -> Seq<u8>
    decreases files.len(),
{
    if files.len() == 0 {
        Seq::empty()
    } else {
        let last = files.last();
        files_bytes(files.drop_last(), stored.drop_last(), table) + stored_file_bytes(
            last.metadata_spec(),
            table_after_files(files.drop_last(), table),
            last.compression_spec(),
            last.size_spec().1,
            last.file_name_spec(),
            stored.last(),
        )
    }
}

/// The metadata positions after each of `files` gets the position where `encode_mut` writes it, one after another.
pub open spec fn positions_after(
    entries: Seq<(Seq<char>, u64)>,
    files: Seq<File>,
    stored: Seq<Seq<u8>>,
    table: StringTableView,
) -> Seq<(Seq<char>, u64)>
    decreases files.len(),
{
    if files.len() == 0 {
        entries
    } else {
        set_position(
            positions_after(entries, files.drop_last(), stored.drop_last(), table),
            files.last().file_name_spec(),
            (15 + files_bytes(files.drop_last(), stored.drop_last(), table).len()) as u64,
        )
    }
}

/// Whether `after` and `bytes` are what `encode_mut` makes of the carton `before` with the file contents `contents`,
/// `stored[i]` being what the contents of the `i`th file became: the header with the pointer to the tables, each file's
/// metadata, description and stored contents, then the file table and the string table.
pub open spec fn encoded_carton(
    before: Carton,
    after: Carton,
    contents: Seq<Vec<u8>>,
    stored: Seq<Seq<u8>>,
    bytes: Seq<u8>,
) -> bool {
    let files = before.file_table_spec().files_spec();
    let table = before.string_table.view();
    let records = files_bytes(files, stored, table);
    &&& stored.len() == files.len()
    &&& forall|i: int|
        0 <= i < files.len() ==> #[trigger] stored[i] == compressed(files[i].compression_spec(), contents[i]@)
    &&& after.version == before.version
    &&& after.string_table.view() == table_after_files(files, table)
    &&& after.file_table_spec().metadata_positions_spec().entries() == positions_after(
        before.file_table_spec().metadata_positions_spec().entries(),
        files,
        stored,
        table,
    )
    &&& after.file_table_spec().files_spec().len() == files.len()
    &&& forall|i: int|
        0 <= i < files.len() ==> {
            let file = #[trigger] after.file_table_spec().files_spec()[i];
            &&& file.compression_spec() == files[i].compression_spec()
            &&& file.file_name_spec() == files[i].file_name_spec()
            &&& file.metadata_spec() == files[i].metadata_spec()
            &&& file.size_spec() == (stored[i].len() as u64, files[i].size_spec().1)
        }
    &&& bytes == carton_magic() + seq![before.version] + super::stream::le_bytes(15 + records.len(), 8) + records
        + file_table_bytes(after.file_table_spec().metadata_positions_spec().entries()) + archive_table_bytes(
        after.string_table.view(),
    )
}

/// Encoding a file's metadata keeps the table's strings in front and the table aligned, and consistent while it holds
/// at most `u64::MAX` strings.
proof fn lemma_metadata_encoding_table(metadata: Option<FileMetadata>, table: StringTableView)
    requires
        aligned_table(table),
    ensures
        aligned_table(metadata_encoding(metadata, table).1),
        table.strings.is_prefix_of(metadata_encoding(metadata, table).1.strings),
        consistent_table(table) && metadata_encoding(metadata, table).1.strings.len() <= u64::MAX ==> consistent_table(
            metadata_encoding(metadata, table).1,
        ),
{
    match metadata {
        Some(value) => lemma_value_encoding_table(tree_of(value.value_spec()), table),
        None => {
            assert(table.strings =~= table.strings.subrange(0, table.strings.len() as int));
        },
    }
}

/// Encoding the metadata of files one after another keeps the table's strings in front and the table aligned, and
/// consistent while it holds at most `u64::MAX` strings.
proof fn lemma_table_after_files(files: Seq<File>, table: StringTableView)
    requires
        aligned_table(table),
    ensures
        aligned_table(table_after_files(files, table)),
        table.strings.is_prefix_of(table_after_files(files, table).strings),
        consistent_table(table) && table_after_files(files, table).strings.len() <= u64::MAX ==> consistent_table(
            table_after_files(files, table),
        ),
    decreases files.len(),
{
    if files.len() == 0 {
        assert(table.strings =~= table.strings.subrange(0, table.strings.len() as int));
    } else {
        let middle = table_after_files(files.drop_last(), table);
        lemma_table_after_files(files.drop_last(), table);
        lemma_metadata_encoding_table(files.last().metadata_spec(), middle);
        lemma_prefix_chain(table.strings, middle.strings, table_after_files(files, table).strings);
    }
}

/// `a` in front of `b` and `b` in front of `c` puts `a` in front of `c`.
proof fn lemma_prefix_chain(a: Seq<Seq<char>>, b: Seq<Seq<char>>, c: Seq<Seq<char>>)
    requires
        a.is_prefix_of(b),
        b.is_prefix_of(c),
    ensures
        a.is_prefix_of(c),
{
    assert(a =~= c.subrange(0, a.len() as int)) by {
        assert forall|i: int| 0 <= i < a.len() implies a[i] == c[i] by {
            assert(a[i] == b.subrange(0, a.len() as int)[i]);
            assert(b[i] == c.subrange(0, b.len() as int)[i]);
        }
    }
}

/// The table after the metadata of the first `i` files holds its strings in front of the table after all of them.
proof fn lemma_table_after_prefix(files: Seq<File>, table: StringTableView, i: int)
    requires
        aligned_table(table),
        0 <= i <= files.len(),
    ensures
        table_after_files(files.take(i), table).strings.is_prefix_of(table_after_files(files, table).strings),
    decreases files.len(),
{
    let all = table_after_files(files, table).strings;
    if i == files.len() {
        assert(files.take(i) =~= files);
        assert(all =~= all.subrange(0, all.len() as int));
    } else {
        let init = files.drop_last();
        assert(files.take(i) =~= init.take(i));
        lemma_table_after_prefix(init, table, i);
        lemma_table_after_files(init, table);
        lemma_metadata_encoding_table(files.last().metadata_spec(), table_after_files(init, table));
        lemma_prefix_chain(table_after_files(files.take(i), table).strings, table_after_files(init, table).strings, all);
    }
}

/// The bytes of the first `i` files are written in front of the bytes of all of them, and the `i`th file's bytes follow
/// them.
proof fn lemma_files_bytes_prefix(files: Seq<File>, stored: Seq<Seq<u8>>, table: StringTableView, i: int)
    requires
        stored.len() == files.len(),
        0 <= i <= files.len(),
    ensures
        files_bytes(files.take(i), stored.take(i), table).len() <= files_bytes(files, stored, table).len(),
        files_bytes(files, stored, table).take(files_bytes(files.take(i), stored.take(i), table).len() as int)
            == files_bytes(files.take(i), stored.take(i), table),
        i < files.len() ==> files_bytes(files.take(i + 1), stored.take(i + 1), table) == files_bytes(
            files.take(i),
            stored.take(i),
            table,
        ) + stored_file_bytes(
            files[i].metadata_spec(),
            table_after_files(files.take(i), table),
            files[i].compression_spec(),
            files[i].size_spec().1,
            files[i].file_name_spec(),
            stored[i],
        ),
    decreases files.len(),
{
    let all = files_bytes(files, stored, table);
    if i < files.len() {
        assert(files.take(i + 1).drop_last() =~= files.take(i));
        assert(stored.take(i + 1).drop_last() =~= stored.take(i));
        assert(files.take(i + 1).last() == files[i]);
        assert(stored.take(i + 1).last() == stored[i]);
    }
    if i == files.len() {
        assert(files.take(i) =~= files);
        assert(stored.take(i) =~= stored);
        assert(all.take(all.len() as int) =~= all);
    } else {
        let init = files.drop_last();
        let stored_init = stored.drop_last();
        assert(files.take(i) =~= init.take(i));
        assert(stored.take(i) =~= stored_init.take(i));
        lemma_files_bytes_prefix(init, stored_init, table, i);
        let before = files_bytes(init.take(i), stored_init.take(i), table);
        assert(all.take(before.len() as int) =~= files_bytes(init, stored_init, table).take(before.len() as int));
    }
}

/// Setting the positions of files with distinct names, one after another, into no positions lists each file's name
/// with its position, in file order.
proof fn lemma_positions_written(files: Seq<File>, stored: Seq<Seq<u8>>, table: StringTableView)
    requires
        stored.len() == files.len(),
        forall|i: int, j: int|
            0 <= i < j < files.len() ==> #[trigger] files[i].file_name_spec() != #[trigger] files[j].file_name_spec(),
    ensures
        positions_after(Seq::empty(), files, stored, table) == Seq::new(
            files.len(),
            |i: int|
                (files[i].file_name_spec(), (15 + files_bytes(files.take(i), stored.take(i), table).len()) as u64),
        ),
    decreases files.len(),
{
    let expected = Seq::new(
        files.len(),
        |i: int| (files[i].file_name_spec(), (15 + files_bytes(files.take(i), stored.take(i), table).len()) as u64),
    );
    if files.len() > 0 {
        let init = files.drop_last();
        let stored_init = stored.drop_last();
        lemma_positions_written(init, stored_init, table);
        let before = positions_after(Seq::empty(), init, stored_init, table);
        let name = files.last().file_name_spec();
        assert forall|k: int| 0 <= k < init.len() implies init.take(k) =~= files.take(k) && stored_init.take(k)
            =~= stored.take(k) by {}
        assert(!(exists|k: int| 0 <= k < before.len() && before[k].0 == name)) by {
            assert forall|k: int| 0 <= k < before.len() implies before[k].0 != name by {
                assert(files[k].file_name_spec() != files[files.len() - 1].file_name_spec());
            }
        }
        assert(init =~= files.take(files.len() - 1));
        assert(stored_init =~= stored.take(files.len() - 1));
        assert(positions_after(Seq::empty(), files, stored, table) =~= expected);
    } else {
        assert(expected =~= Seq::<(Seq<char>, u64)>::empty());
    }
}

/// Whether `after` and `bytes` are what `encode_mut` makes of the carton `before` with the file contents `contents`,
/// each file's contents being stored as its compression setting makes them (`compressed`).
pub open spec fn encodes(before: Carton, after: Carton, contents: Seq<Vec<u8>>, bytes: Seq<u8>) -> bool {
    exists|stored: Seq<Seq<u8>>| #[trigger] encoded_carton(before, after, contents, stored, bytes)
}

impl Carton {
    pub open spec fn file_spec(&self) -> Option<Seq<u8>> {
        match self.file {
            Some(bytes) => Some(bytes@),
            None => None,
        }
    }

    pub open spec fn file_table_spec(&self) -> FileTable {
        self.file_table
    }

    pub open spec fn wf(&self) -> bool {
        self.file_table_spec().wf() && self.string_table.wf()
    }

    /// The carton's file table.
    pub fn get_file_table(&self) -> (file_table: &FileTable)
        ensures
            *file_table == self.file_table_spec(),
    {
        &self.file_table
    }

    /// Add a file to the carton. The file will be written into the carton archive format when it is exported.
    pub fn add_file(&mut self, file: File)
        ensures
            final(self).file_table_spec().files_spec() == old(self).file_table_spec().files_spec().push(file),
            final(self).file_table_spec().metadata_positions_spec() == old(
                self,
            ).file_table_spec().metadata_positions_spec(),
            final(self).file_table_spec().file_positions_spec() == old(self).file_table_spec().file_positions_spec(),
            final(self).string_table == old(self).string_table,
            final(self).version == old(self).version,
            final(self).file_spec() == old(self).file_spec(),
    {
        self.file_table.add_from_disk(file);
    }

    /// Writes the files, `contents[i]` being the contents of the `i`th file, each after its metadata, and puts them back
    /// with their stored sizes. Hands out each file's name, metadata position and contents position, and what the
    /// contents of each file became.
    #[verifier::spinoff_prover]
    #[verifier::rlimit(50)]
    fn encode_files(&mut self, vector: &mut Vec<u8>, contents: &Vec<Vec<u8>>) -> (result: Result<
        (Vec<(String, u64, u64)>, Ghost<Seq<Seq<u8>>>),
        CartonError,
    >)
        requires
            old(self).wf(),
            old(vector)@.len() == 15,
            contents@.len() == old(self).file_table_spec().files_spec().len(),
            forall|i: int|
                0 <= i < old(self).file_table_spec().files_spec().len() ==> encodable_metadata(
                    #[trigger] old(self).file_table_spec().files_spec()[i].metadata_spec(),
                ),
        ensures
            final(self).wf(),
            final(self).version == old(self).version,
            final(self).file_table_spec().metadata_positions_spec() == old(
                self,
            ).file_table_spec().metadata_positions_spec(),
            result matches Err(error) ==> error is FileError && exists|i: int|
                0 <= i < old(self).file_table_spec().files_spec().len() && (#[trigger] old(
                    self,
                ).file_table_spec().files_spec()[i]).compression_spec() is ZStd,
            result matches Ok((positions, stored)) ==> {
                let files = old(self).file_table_spec().files_spec();
                let table = old(self).string_table.view();
                &&& stored@.len() == files.len()
                &&& final(vector)@ == old(vector)@ + files_bytes(files, stored@, table)
                &&& final(self).string_table.view() == table_after_files(files, table)
                &&& forall|k: int|
                    0 <= k < files.len() ==> #[trigger] stored@[k] == compressed(
                        files[k].compression_spec(),
                        contents@[k]@,
                    )
                &&& positions@.len() == files.len()
                &&& forall|k: int|
                    0 <= k < files.len() ==> (#[trigger] positions@[k]).0@ == files[k].file_name_spec()
                        && positions@[k].1 == 15 + files_bytes(files.take(k), stored@.take(k), table).len()
                &&& final(self).file_table_spec().files_spec().len() == files.len()
                &&& forall|k: int|
                    0 <= k < files.len() ==> {
                        let file = #[trigger] final(self).file_table_spec().files_spec()[k];
                        &&& file.compression_spec() == files[k].compression_spec()
                        &&& file.file_name_spec() == files[k].file_name_spec()
                        &&& file.metadata_spec() == files[k].metadata_spec()
                        &&& file.size_spec() == (stored@[k].len() as u64, files[k].size_spec().1)
                    }
            },
    {
        let ghost header = vector@;
        let ghost table = self.string_table.view();
        let mut files = self.file_table.take_files();
        let mut done: Vec<File> = Vec::new();
        let mut positions: Vec<(String, u64, u64)> = Vec::new();
        let mut i: usize = 0;
        let ghost all_files = files@;
        let ghost mut stored: Seq<Seq<u8>> = Seq::empty();
        proof {
            assert(all_files.take(0) =~= Seq::<File>::empty());
            assert(header + Seq::<u8>::empty() =~= header);
        }
        while i < contents.len()
            invariant
                self.string_table.wf(),
                self.file_table.wf(),
                self.version == old(self).version,
                self.file_table.metadata_positions_spec() == old(self).file_table_spec().metadata_positions_spec(),
                all_files == old(self).file_table_spec().files_spec(),
                table == old(self).string_table.view(),
                header == old(vector)@,
                header.len() == 15,
                contents@.len() == all_files.len(),
                i <= contents@.len(),
                files@ == all_files.skip(i as int),
                forall|k: int| 0 <= k < all_files.len() ==> encodable_metadata(#[trigger] all_files[k].metadata_spec()),
                stored.len() == i,
                vector@ == header + files_bytes(all_files.take(i as int), stored, table),
                self.string_table.view() == table_after_files(all_files.take(i as int), table),
                forall|k: int|
                    0 <= k < i ==> #[trigger] stored[k] == compressed(all_files[k].compression_spec(), contents@[k]@),
                positions@.len() == i,
                forall|k: int|
                    0 <= k < i ==> (#[trigger] positions@[k]).0@ == all_files[k].file_name_spec() && positions@[k].1
                        == 15 + files_bytes(all_files.take(k), stored.take(k), table).len(),
                done@.len() == i,
                forall|k: int|
                    0 <= k < i ==> {
                        let file = #[trigger] done@[k];
                        &&& file.compression_spec() == all_files[k].compression_spec()
                        &&& file.file_name_spec() == all_files[k].file_name_spec()
                        &&& file.metadata_spec() == all_files[k].metadata_spec()
                        &&& file.size_spec() == (stored[k].len() as u64, all_files[k].size_spec().1)
                    },
            decreases contents@.len() - i,
        {
            let mut file = files.remove(0);
            proof {
                assert(file == all_files[i as int]);
            }
            let data = contents[i].clone();
            let (metadata_position, file_position) = match encode_file(vector, &mut file, data, &mut self.string_table) {
                Ok(pair) => pair,
                Err(error) => {
                    self.file_table.put_files(done);
                    proof {
                        assert(all_files[i as int].compression_spec() is ZStd);
                    }
                    return Err(error);
                },
            };
            let ghost piece = vector@.skip(file_position as int);
            proof {
                assert(files@ =~= all_files.skip(i + 1));
                let old_stored = stored;
                stored = stored.push(piece);
                assert(all_files.take(i + 1).drop_last() =~= all_files.take(i as int));
                assert(all_files.take(i + 1).last() == all_files[i as int]);
                assert(stored.drop_last() =~= old_stored);
                assert(stored.last() == piece);
                assert(stored.take(i as int) =~= old_stored);
                assert(vector@ =~= header + files_bytes(all_files.take(i + 1), stored, table));
                assert forall|k: int| 0 <= k < i implies #[trigger] stored.take(k) =~= old_stored.take(k) by {}
            }
            positions.push((file.get_file_name().to_owned(), metadata_position, file_position));
            done.push(file);
            i = i + 1;
        }
        self.file_table.put_files(done);
        proof {
            assert(all_files.take(i as int) =~= all_files);
        }
        Ok((positions, Ghost(stored)))
    }

    /// Sets each written file's metadata and contents positions in the file table.
    fn record_positions(
        &mut self,
        positions: &Vec<(String, u64, u64)>,
        Ghost(files): Ghost<Seq<File>>,
        Ghost(stored): Ghost<Seq<Seq<u8>>>,
        Ghost(table): Ghost<StringTableView>,
    )
        requires
            old(self).wf(),
            positions@.len() == files.len(),
            stored.len() == files.len(),
            forall|j: int|
                0 <= j < files.len() ==> (#[trigger] positions@[j]).0@ == files[j].file_name_spec() && positions@[j].1
                    == 15 + files_bytes(files.take(j), stored.take(j), table).len(),
        ensures
            final(self).wf(),
            final(self).version == old(self).version,
            final(self).string_table == old(self).string_table,
            final(self).file_table_spec().files_spec() == old(self).file_table_spec().files_spec(),
            final(self).file_table_spec().metadata_positions_spec().entries() == positions_after(
                old(self).file_table_spec().metadata_positions_spec().entries(),
                files,
                stored,
                table,
            ),
    {
        let ghost entries = self.file_table.metadata_positions_spec().entries();
        proof {
            assert(files.take(0) =~= Seq::<File>::empty());
            assert(stored.take(0) =~= Seq::<Seq<u8>>::empty());
        }
        for k in 0..positions.len()
            invariant
                self.file_table.wf(),
                self.string_table == old(self).string_table,
                self.version == old(self).version,
                self.file_table.files_spec() == old(self).file_table_spec().files_spec(),
                entries == old(self).file_table_spec().metadata_positions_spec().entries(),
                positions@.len() == files.len(),
                stored.len() == files.len(),
                forall|j: int|
                    0 <= j < files.len() ==> (#[trigger] positions@[j]).0@ == files[j].file_name_spec()
                        && positions@[j].1 == 15 + files_bytes(files.take(j), stored.take(j), table).len(),
                self.file_table.metadata_positions_spec().entries() == positions_after(
                    entries,
                    files.take(k as int),
                    stored.take(k as int),
                    table,
                ),
        {
            let (file_name, metadata_position, file_position) = (&positions[k].0, positions[k].1, positions[k].2);
            self.file_table.update_position(file_name.as_str(), metadata_position, file_position);
            proof {
                assert(files.take(k + 1).drop_last() =~= files.take(k as int));
                assert(stored.take(k + 1).drop_last() =~= stored.take(k as int));
                assert(files.take(k + 1).last() == files[k as int]);
            }
        }
        proof {
            assert(files.take(files.len() as int) =~= files);
            assert(stored.take(stored.len() as int) =~= stored);
        }
    }

    /// Encode the carton into the bytes of a `.carton` file. Carton files start with the `CARTON` magic number and the
    /// carton encoding version. The encoding reserves a 8 byte number after the version that will point to the file
    /// table. Files and their metadata are written first, `contents[i]` being the contents of the `i`th file. The file
    /// and metadata encoding process updates the internal state of the carton, necessary for completing the file and
    /// string tables. Once all files are written, the file table is written with the string table following afterwards.
    /// Once the file table and string tables are written, the file table pointer at the start of the file is updated
    /// to point to the absolute location of the file table.
    #[verifier::spinoff_prover]
    #[verifier::rlimit(60)]
    pub fn encode_mut(&mut self, contents: Vec<Vec<u8>>) -> (result: Result<Vec<u8>, CartonError>)
        requires
            old(self).wf(),
            contents@.len() == old(self).file_table_spec().files_spec().len(),
            forall|i: int|
                0 <= i < old(self).file_table_spec().files_spec().len() ==> encodable_metadata(
                    #[trigger] old(self).file_table_spec().files_spec()[i].metadata_spec(),
                ),
        ensures
            final(self).wf(),
            final(self).version == old(self).version,
            result matches Ok(bytes) ==> encodes(*old(self), *final(self), contents@, bytes@),
            result matches Err(error) ==> error is FileError && exists|i: int|
                0 <= i < old(self).file_table_spec().files_spec().len() && (#[trigger] old(
                    self,
                ).file_table_spec().files_spec()[i]).compression_spec() is ZStd,
            result matches Ok(bytes) ==> {
                let table_position = le_value(bytes@.subrange(7, 15));
                &&& bytes@.take(6) == carton_magic()
                &&& bytes@[6] == old(self).version
                &&& 15 <= table_position <= bytes@.len()
                &&& bytes@.skip(table_position as int) == file_table_bytes(
                    final(self).file_table_spec().metadata_positions_spec().entries(),
                ) + archive_table_bytes(final(self).string_table.view())
            },
    {
        let mut vector: Vec<u8> = Vec::new();

        // write magic number and the version
        write_char('C', &mut vector);
        write_char('A', &mut vector);
        write_char('R', &mut vector);
        write_char('T', &mut vector);
        write_char('O', &mut vector);
        write_char('N', &mut vector);
        write_u8(self.version, &mut vector);

        // reserve spot for tables position
        let table_pointer = vector.len();
        write_u64(0, &mut vector);
        proof {
            super::stream::lemma_le_bytes_len(0, 8);
        }
        let ghost header = vector@;
        proof {
            assert(header =~= carton_magic() + seq![self.version] + super::stream::le_bytes(0, 8));
        }
        let ghost files = self.file_table.files_spec();
        let ghost table = self.string_table.view();

        // encode files
        let (positions, stored) = match self.encode_files(&mut vector, &contents) {
            Ok(pair) => pair,
            Err(error) => return Err(error),
        };

        // update file positions in file table
        self.record_positions(&positions, Ghost(files), stored, Ghost(table));

        // write file & string streams to file
        let first_table_position = vector.len() as u64;
        self.file_table.encode(&mut vector);
        self.string_table.encode_archive(&mut vector);

        // write file table position at the top of the file
        let ghost before_patch = vector@;
        proof {
            assert(before_patch.take(15) =~= header);
            assert(before_patch.take(6) =~= header.take(6));
            assert(header.take(6) =~= carton_magic());
        }
        patch_u64(&mut vector, table_pointer, first_table_position);
        proof {
            let bytes = vector@;
            let records = files_bytes(files, stored@, table);
            assert(bytes.take(6) =~= carton_magic());
            assert(before_patch.len() >= 15);
            super::stream::lemma_le_bytes_len(first_table_position as nat, 8);
            assert(bytes =~= before_patch.take(7) + super::stream::le_bytes(first_table_position as nat, 8)
                + before_patch.skip(15));
            assert(bytes.subrange(7, 15) =~= super::stream::le_bytes(first_table_position as nat, 8));
            super::stream::lemma_le_value_of_bytes(first_table_position as nat, 8);
            super::stream::lemma_byte_pow_8();
            vstd::arithmetic::div_mod::lemma_small_mod(first_table_position as nat, super::stream::byte_pow(8));
            assert(bytes.skip(first_table_position as int) =~= before_patch.skip(first_table_position as int));
            assert(before_patch.skip(first_table_position as int) =~= file_table_bytes(
                self.file_table.metadata_positions_spec().entries(),
            ) + archive_table_bytes(self.string_table.view()));
            assert(first_table_position == 15 + records.len());
            assert(before_patch.take(7) =~= carton_magic() + seq![self.version]);
            assert(bytes =~= carton_magic() + seq![self.version] + super::stream::le_bytes(15 + records.len(), 8)
                + records + file_table_bytes(self.file_table.metadata_positions_spec().entries())
                + archive_table_bytes(self.string_table.view()));
            assert(encoded_carton(*old(self), *self, contents@, stored@, bytes));
            assert(encodes(*old(self), *self, contents@, bytes));
        }
        Ok(vector)
    }
}

/// Why decoding a carton stops.
pub enum CartonFailure {
    InvalidMagicNumber,
    InvalidVersion,
    UnexpectedTable,
    NotUtf8,
    InvalidType(u8),
    NotInStringTable(u64),
    InvalidCompression,
    UnexpectedFileName,
}

/// Whether a decoding error is the one a failure names.
pub open spec fn reports(error: CartonError, failure: CartonFailure) -> bool {
    match failure {
        CartonFailure::InvalidMagicNumber => error is InvalidMagicNumber,
        CartonFailure::InvalidVersion => error is InvalidVersion,
        CartonFailure::UnexpectedTable => error is UnexpectedTable,
        CartonFailure::NotUtf8 => error is FromUtf8,
        CartonFailure::InvalidType(value_type) => error matches CartonError::InvalidTOMLType(t) && t == value_type,
        CartonFailure::NotInStringTable(id) => error matches CartonError::NotInStringTable(i) && i == id,
        CartonFailure::InvalidCompression => error is InvalidCompression,
        CartonFailure::UnexpectedFileName => error is UnexpectedFileName,
    }
}

/// The table pointer of a carton whose header starts at `cursor`: the magic number, the version, then the pointer in
/// 8 bytes.
pub open spec fn header_parse(data: Seq<u8>, cursor: nat) -> Result<nat, CartonFailure> {
    if window(data, cursor, 6) != carton_magic() {
        Err(CartonFailure::InvalidMagicNumber)
    } else if window(data, advance(data.len(), cursor, 6), 1)[0] != CARTON_VERSION {
        Err(CartonFailure::InvalidVersion)
    } else {
        Ok(le_value(window(data, advance(data.len(), cursor, 7), 8)))
    }
}

/// The tables read from `cursor` to the end of the file: each table is identified by its first byte (the low byte of
/// its row count), 1 for a file table and 2 for a string table; a later table of a kind replaces an earlier one.
pub open spec fn tables_parse(
    data: Seq<u8>,
    cursor: nat,
    entries: Seq<(Seq<char>, u64)>,
    strings: StringTableView,
) -> Result<(Seq<(Seq<char>, u64)>, StringTableView), CartonFailure>
    decreases remaining(data, cursor),
{
    if cursor >= data.len() {
        Ok((entries, strings))
    } else {
        let count = le_value(window(data, cursor, 8));
        let rows = advance(data.len(), cursor, 8);
        if data[cursor as int] == 1 {
            match rows_parse(data, rows, count, Seq::empty()) {
                None => Err(CartonFailure::NotUtf8),
                Some((new_entries, end)) => if end > cursor {
                    tables_parse(data, end, new_entries, strings)
                } else {
                    Err(CartonFailure::UnexpectedTable)
                },
            }
        } else if data[cursor as int] == 2 {
            match archive_strings_parse(data, rows, count, table_of(Seq::empty())) {
                None => Err(CartonFailure::NotUtf8),
                Some((new_strings, end)) => if end > cursor {
                    tables_parse(data, end, entries, new_strings)
                } else {
                    Err(CartonFailure::UnexpectedTable)
                },
            }
        } else {
            Err(CartonFailure::UnexpectedTable)
        }
    }
}

/// `order` with entry `k` inserted before the first entry whose position is greater than entry `k`'s.
pub open spec fn insert_by_position(order: Seq<int>, entries: Seq<(Seq<char>, u64)>, k: int) -> Seq<int>
    decreases order.len(),
{
    if order.len() == 0 {
        seq![k]
    } else if entries[order[0]].1 > entries[k].1 {
        seq![k] + order
    } else {
        seq![order[0]] + insert_by_position(order.drop_first(), entries, k)
    }
}

/// The first `count` entries' indices ordered by position; entries with equal positions keep their table order.
pub open spec fn position_order(entries: Seq<(Seq<char>, u64)>, count: nat) -> Seq<int>
    decreases count,
{
    if count == 0 {
        Seq::empty()
    } else {
        insert_by_position(position_order(entries, (count - 1) as nat), entries, count - 1)
    }
}

/// What a carton stores for one file.
pub struct RecordView {
    pub metadata: Option<MetadataTree>,
    pub compression: CompressionView,
    pub file_name: Seq<char>,
    pub size: (u64, u64),
    /// Where the stored contents start.
    pub file_position: nat,
}

/// The file stored at `position`: metadata if its first byte is 7 (a table), then the file's description.
#[verifier::opaque]
pub open spec fn record_parse(data: Seq<u8>, position: nat, strings: Seq<Seq<char>>) -> Result<
    RecordView,
    CartonFailure,
> {
    let metadata = if position < data.len() && data[position as int] == 7 {
        match value_parse(data, position, strings) {
            Ok((tree, end)) => Ok((Some(tree), end)),
            Err(ValueError::InvalidType(value_type)) => Err(CartonFailure::InvalidType(value_type)),
            Err(ValueError::NotInStringTable(id)) => Err(CartonFailure::NotInStringTable(id)),
            Err(ValueError::Unsupported) => Err(CartonFailure::InvalidType(3)),
        }
    } else {
        Ok((None, position))
    };
    match metadata {
        Err(failure) => Err(failure),
        Ok((metadata, description)) => match compression_parse(data, description) {
            None => Err(CartonFailure::InvalidCompression),
            Some((compression, after_compression)) => {
                let stored_size = le_value(window(data, after_compression, 8));
                let after_stored = advance(data.len(), after_compression, 8);
                let size = le_value(window(data, after_stored, 8));
                let after_size = advance(data.len(), after_stored, 8);
                let (length, header) = vlq_at(data, after_size);
                let body = advance(data.len(), after_size, header);
                let name = window(data, body, length);
                if !vstd::utf8::valid_utf8(name) {
                    Err(CartonFailure::NotUtf8)
                } else {
                    Ok(
                        RecordView {
                            metadata,
                            compression,
                            file_name: vstd::utf8::decode_utf8(name),
                            size: (stored_size as u64, size as u64),
                            file_position: advance(data.len(), body, length),
                        },
                    )
                }
            },
        },
    }
}

/// The tree of a file's metadata, if it has any.
pub open spec fn metadata_tree(metadata: Option<FileMetadata>) -> Option<MetadataTree> {
    match metadata {
        None => None,
        Some(metadata) => Some(tree_of(metadata.value_spec())),
    }
}

/// Whether a file's metadata reads back as it is written in front of the file: there is none, or it is a table that
/// reads back as written.
pub open spec fn restorable_metadata(metadata: Option<FileMetadata>) -> bool {
    match metadata {
        None => true,
        Some(metadata) => tree_of(metadata.value_spec()) is Table && restorable_tree(tree_of(metadata.value_spec())),
    }
}

/// The bytes that `encode_file` writes for a file: its metadata, then its description and stored contents.
pub open spec fn stored_file_bytes(
    metadata: Option<FileMetadata>,
    table: StringTableView,
    compression: CompressionView,
    size: u64,
    file_name: Seq<char>,
    stored: Seq<u8>,
) -> Seq<u8> {
    metadata_encoding(metadata, table).0 + file_record_bytes(compression, stored.len() as u64, size, file_name, stored)
}

/// Whether a file's description reads back as written: a zstd dictionary shorter than 65536 bytes, and a name shorter
/// than `2^60` bytes.
pub open spec fn restorable_description(compression: CompressionView, file_name: Seq<char>) -> bool {
    &&& compression matches CompressionView::ZStd(_, dictionary) ==> dictionary.len() < 65536
    &&& vstd::utf8::encode_utf8(file_name).len() < vlq_max()
}

/// Reading the file stored at `position`, where `encode_file` wrote it, gives back its metadata, compression, name and
/// sizes, and where its stored contents start: the strings being looked up in a table that holds the strings of the
/// table after encoding first, with fewer than `2^60` strings.
#[verifier::spinoff_prover]
#[verifier::rlimit(50)]
pub proof fn record_roundtrip(
    data: Seq<u8>,
    position: nat,
    metadata: Option<FileMetadata>,
    table: StringTableView,
    compression: CompressionView,
    size: u64,
    file_name: Seq<char>,
    stored: Seq<u8>,
    strings: Seq<Seq<char>>,
)
    requires
        restorable_metadata(metadata),
        restorable_description(compression, file_name),
        stored.len() <= u64::MAX,
        consistent_table(table),
        metadata_encoding(metadata, table).1.strings.is_prefix_of(strings),
        strings.len() < vlq_max(),
        position + stored_file_bytes(metadata, table, compression, size, file_name, stored).len() <= data.len(),
        data.subrange(
            position as int,
            (position + stored_file_bytes(metadata, table, compression, size, file_name, stored).len()) as int,
        ) == stored_file_bytes(metadata, table, compression, size, file_name, stored),
    ensures
        record_parse(data, position, strings) == Ok::<RecordView, CartonFailure>(
            RecordView {
                metadata: metadata_tree(metadata),
                compression,
                file_name,
                size: (stored.len() as u64, size),
                file_position: (position + stored_file_bytes(metadata, table, compression, size, file_name, stored).len()
                    - stored.len()) as nat,
            },
        ),
{
    reveal(record_parse);
    let bytes = stored_file_bytes(metadata, table, compression, size, file_name, stored);
    let meta = metadata_encoding(metadata, table).0;
    let described = compression_bytes(compression);
    let stored_size = le_bytes(stored.len(), 8);
    let original = le_bytes(size as nat, 8);
    let name = utf8_string_bytes(file_name);
    super::stream::lemma_le_bytes_len(stored.len(), 8);
    super::stream::lemma_le_bytes_len(size as nat, 8);
    super::stream::lemma_le_bytes_len(0, 2);
    super::stream::lemma_le_bytes_len(1, 2);
    super::stream::lemma_le_value_of_bytes(stored.len(), 8);
    super::stream::lemma_le_value_of_bytes(size as nat, 8);
    super::stream::lemma_byte_pow_8();
    vstd::arithmetic::div_mod::lemma_small_mod(stored.len(), super::stream::byte_pow(8));
    vstd::arithmetic::div_mod::lemma_small_mod(size as nat, super::stream::byte_pow(8));
    assert(bytes == meta + described + stored_size + original + name + stored);
    let d = position + meta.len();
    assert(bytes.subrange(meta.len() as int, (meta.len() + described.len()) as int) =~= described);
    lemma_subrange_within(data, position, bytes, meta.len(), described);
    assert(data[position as int] == bytes[0]) by {
        assert(data.subrange(position as int, (position + bytes.len()) as int)[0] == bytes[0]);
    }
    match metadata {
        None => {
            assert(bytes[0] == described[0]);
        },
        Some(value) => {
            let tree = tree_of(value.value_spec());
            assert(bytes.subrange(0, meta.len() as int) =~= meta);
            lemma_subrange_within(data, position, bytes, 0, meta);
            metadata_value_roundtrip(tree, table, data, position, strings);
        },
    }
    compression_roundtrip(data, d, compression);
    let a = d + described.len();
    let o1 = meta.len() + described.len();
    assert(bytes.subrange(o1 as int, (o1 + 8) as int) =~= stored_size);
    lemma_subrange_within(data, position, bytes, o1, stored_size);
    lemma_window_inside(data, a, 8);
    assert(bytes.subrange((o1 + 8) as int, (o1 + 16) as int) =~= original);
    lemma_subrange_within(data, position, bytes, o1 + 8, original);
    lemma_window_inside(data, a + 8, 8);
    assert(bytes.subrange((o1 + 16) as int, (o1 + 16 + name.len()) as int) =~= name);
    lemma_subrange_within(data, position, bytes, o1 + 16, name);
    utf8_string_roundtrip(data, a + 16, file_name);
}

/// The files stored at the positions that `order` lists, in that order: every file's name must be the name its
/// position was listed under.
#[verifier::opaque]
pub open spec fn records_parse(
    data: Seq<u8>,
    entries: Seq<(Seq<char>, u64)>,
    order: Seq<int>,
    strings: Seq<Seq<char>>,
) -> Result<Seq<RecordView>, CartonFailure>
    decreases order.len(),
{
    if order.len() == 0 {
        Ok(Seq::empty())
    } else {
        let (name, position) = entries[order[0]];
        match record_parse(data, position as nat, strings) {
            Err(failure) => Err(failure),
            Ok(record) => if record.file_name != name {
                Err(CartonFailure::UnexpectedFileName)
            } else {
                match records_parse(data, entries, order.drop_first(), strings) {
                    Err(failure) => Err(failure),
                    Ok(records) => Ok(seq![record] + records),
                }
            },
        }
    }
}

/// Whether reading the files that `order` lists runs to a result: until a file fails to decode, every position lies
/// inside the file and no metadata holds a float or datetime.
#[verifier::opaque]
pub open spec fn records_decodable(
    data: Seq<u8>,
    entries: Seq<(Seq<char>, u64)>,
    order: Seq<int>,
    strings: Seq<Seq<char>>,
) -> bool
    decreases order.len(),
{
    order.len() == 0 || {
        let (name, position) = entries[order[0]];
        &&& position < data.len()
        &&& !(data[position as int] == 7 && meets_unsupported(data, position as nat, strings))
        &&& (record_parse(data, position as nat, strings) matches Ok(record) && record.file_name == name)
            ==> records_decodable(data, entries, order.drop_first(), strings)
    }
}

/// Whether decoding a carton from `cursor` runs to a result.
pub open spec fn carton_decodable(data: Seq<u8>, cursor: nat) -> bool {
    match header_parse(data, cursor) {
        Err(_) => true,
        Ok(pointer) => match tables_parse(data, pointer, Seq::empty(), table_of(Seq::empty())) {
            Err(_) => true,
            Ok((entries, strings)) => records_decodable(
                data,
                entries,
                position_order(entries, entries.len()),
                strings.strings,
            ),
        },
    }
}

/// The result of decoding a carton from `cursor`: the file table's entries, the string table, and the stored files
/// in position order.
pub open spec fn carton_parse(data: Seq<u8>, cursor: nat) -> Result<
    (Seq<(Seq<char>, u64)>, StringTableView, Seq<RecordView>),
    CartonFailure,
> {
    match header_parse(data, cursor) {
        Err(failure) => Err(failure),
        Ok(pointer) => match tables_parse(data, pointer, Seq::empty(), table_of(Seq::empty())) {
            Err(failure) => Err(failure),
            Ok((entries, strings)) => match records_parse(
                data,
                entries,
                position_order(entries, entries.len()),
                strings.strings,
            ) {
                Err(failure) => Err(failure),
                Ok(records) => Ok((entries, strings, records)),
            },
        },
    }
}

/// Reading the header and the tables of a carton as `encode_mut` writes them gives back the table pointer, the file
/// table's rows and the table of the stored strings, in ID order: when the version is this encoding's, the rows have
/// distinct names, every name and string is shorter than `2^60` bytes, and the first byte of each table names its
/// kind (the low byte of the row count is 1 for the file table, and that of the string count 2 for the string table).
#[verifier::spinoff_prover]
#[verifier::rlimit(50)]
pub proof fn carton_tables_roundtrip(bytes: Seq<u8>, entries: Seq<(Seq<char>, u64)>, table: StringTableView)
    requires
        bytes.len() >= 15,
        bytes.take(6) == carton_magic(),
        bytes[6] == CARTON_VERSION,
        15 <= le_value(bytes.subrange(7, 15)) <= bytes.len(),
        bytes.skip(le_value(bytes.subrange(7, 15)) as int) == file_table_bytes(entries) + archive_table_bytes(table),
        distinct_keys(entries),
        short_names(entries),
        short_strings(table.strings),
        entries.len() <= u64::MAX,
        table.strings.len() <= u64::MAX,
        entries.len() % 256 == 1,
        table.strings.len() % 256 == 2,
    ensures
        header_parse(bytes, 0) == Ok::<nat, CartonFailure>(le_value(bytes.subrange(7, 15))),
        tables_parse(bytes, le_value(bytes.subrange(7, 15)), Seq::empty(), table_of(Seq::empty())) == Ok::<
            (Seq<(Seq<char>, u64)>, StringTableView),
            CartonFailure,
        >((entries, table_of(table.strings))),
{
    let pointer = le_value(bytes.subrange(7, 15));
    let files = file_table_bytes(entries);
    let strings = archive_table_bytes(table);
    super::file_stream::lemma_window_inside(bytes, 0, 6);
    assert(bytes.subrange(0, 6) =~= bytes.take(6));
    super::file_stream::lemma_window_inside(bytes, 6, 1);
    super::file_stream::lemma_window_inside(bytes, 7, 8);
    super::stream::lemma_le_bytes_len(entries.len(), 8);
    super::stream::lemma_le_bytes_len(table.strings.len(), 8);
    assert(bytes.len() == pointer + files.len() + strings.len()) by {
        assert(bytes.skip(pointer as int).len() == bytes.len() - pointer);
    }
    assert(bytes.subrange(pointer as int, (pointer + files.len()) as int) =~= files) by {
        assert forall|i: int| 0 <= i < files.len() implies bytes[pointer + i] == files[i] by {
            assert(bytes.skip(pointer as int)[i] == (files + strings)[i]);
        }
    }
    let middle = pointer + files.len();
    assert(bytes.subrange(middle as int, (middle + strings.len()) as int) =~= strings) by {
        assert forall|i: int| 0 <= i < strings.len() implies bytes[middle + i] == strings[i] by {
            assert(bytes.skip(pointer as int)[files.len() + i] == (files + strings)[files.len() + i]);
        }
    }
    assert(bytes[pointer as int] == 1) by {
        assert(bytes.skip(pointer as int)[0] == files[0]);
        assert(files[0] == (entries.len() % 256) as u8);
    }
    assert(bytes[middle as int] == 2) by {
        assert(bytes.skip(pointer as int)[files.len() as int] == strings[0]);
        assert(strings[0] == (table.strings.len() % 256) as u8);
    }
    file_table_roundtrip(bytes, pointer, entries);
    archive_table_roundtrip(bytes, middle, table);
    assert(tables_parse(bytes, bytes.len(), entries, table_of(table.strings)) == Ok::<
        (Seq<(Seq<char>, u64)>, StringTableView),
        CartonFailure,
    >((entries, table_of(table.strings))));
    assert(tables_parse(bytes, middle, entries, table_of(Seq::empty())) == Ok::<
        (Seq<(Seq<char>, u64)>, StringTableView),
        CartonFailure,
    >((entries, table_of(table.strings))));
}

/// The indices from `start` up to `end`, in order.
pub open spec fn index_range(start: int, end: int) -> Seq<int> {
    Seq::new((end - start) as nat, |i: int| i + start)
}

/// Inserting an entry whose position is not below any listed entry's position puts it last.
proof fn lemma_insert_last(order: Seq<int>, entries: Seq<(Seq<char>, u64)>, k: int)
    requires
        forall|i: int| 0 <= i < order.len() ==> entries[#[trigger] order[i]].1 <= entries[k].1,
    ensures
        insert_by_position(order, entries, k) == order.push(k),
    decreases order.len(),
{
    if order.len() > 0 {
        let rest = order.drop_first();
        assert forall|i: int| 0 <= i < rest.len() implies entries[#[trigger] rest[i]].1 <= entries[k].1 by {
            assert(rest[i] == order[i + 1]);
        }
        lemma_insert_last(rest, entries, k);
        assert(seq![order[0]] + rest.push(k) =~= order.push(k));
    }
}

/// Entries whose positions never decrease are ordered as they stand.
proof fn lemma_position_order_sorted(entries: Seq<(Seq<char>, u64)>, count: nat)
    requires
        count <= entries.len(),
        forall|i: int, j: int| 0 <= i < j < count ==> #[trigger] entries[i].1 <= #[trigger] entries[j].1,
    ensures
        position_order(entries, count) == Seq::new(count, |i: int| i),
    decreases count,
{
    if count > 0 {
        let last = count - 1;
        lemma_position_order_sorted(entries, last as nat);
        let order = Seq::new(last as nat, |i: int| i);
        assert forall|i: int| 0 <= i < order.len() implies entries[#[trigger] order[i]].1 <= entries[last].1 by {
            assert(order[i] == i);
        }
        lemma_insert_last(order, entries, last);
        assert(order.push(last) =~= Seq::new(count, |i: int| i));
    }
}

/// Reading the files at the positions of entries `start` onwards, in table order, gives back what each position
/// stores, when each position lies inside the file and reads back a file of the name it is listed under.
#[verifier::spinoff_prover]
#[verifier::rlimit(50)]
proof fn lemma_records_in_order(
    data: Seq<u8>,
    entries: Seq<(Seq<char>, u64)>,
    strings: Seq<Seq<char>>,
    records: Seq<RecordView>,
    start: int,
)
    requires
        records.len() == entries.len(),
        0 <= start <= entries.len(),
        forall|i: int|
            start <= i < entries.len() ==> entries[i].1 < data.len() && record_parse(
                data,
                entries[i].1 as nat,
                strings,
            ) == Ok::<RecordView, CartonFailure>(#[trigger] records[i]) && records[i].file_name == entries[i].0,
    ensures
        records_parse(data, entries, index_range(start, entries.len() as int), strings) == Ok::<
            Seq<RecordView>,
            CartonFailure,
        >(records.skip(start)),
        records_decodable(data, entries, index_range(start, entries.len() as int), strings),
    decreases entries.len() - start,
{
    reveal(records_parse);
    reveal(records_decodable);
    let order = index_range(start, entries.len() as int);
    if start < entries.len() {
        let position = entries[start].1;
        let next = index_range(start + 1, entries.len() as int);
        assert(order.drop_first() =~= next);
        assert(order[0] == start);
        assert(records[start] == records[start]);
        lemma_records_in_order(data, entries, strings, records, start + 1);
        assert(!(data[position as int] == 7 && meets_unsupported(data, position as nat, strings))) by {
            reveal(record_parse);
        }
        assert(seq![records[start]] + records.skip(start + 1) =~= records.skip(start));
    } else {
        assert(records.skip(start) =~= Seq::<RecordView>::empty());
    }
}

/// Whether the files of a carton read back as they are written: their names are distinct, and each file's metadata and
/// description read back as written.
pub open spec fn restorable_files(files: Seq<File>) -> bool {
    &&& forall|i: int, j: int|
        0 <= i < j < files.len() ==> #[trigger] files[i].file_name_spec() != #[trigger] files[j].file_name_spec()
    &&& forall|i: int|
        0 <= i < files.len() ==> restorable_metadata((#[trigger] files[i]).metadata_spec()) && restorable_description(
            files[i].compression_spec(),
            files[i].file_name_spec(),
        )
}

/// What a carton that `encode_mut` wrote stores for its `i`th file, `stored[i]` being what the file's contents became.
pub open spec fn written_record(files: Seq<File>, stored: Seq<Seq<u8>>, table: StringTableView, i: int) -> RecordView {
    let file = files[i];
    let bytes = stored_file_bytes(
        file.metadata_spec(),
        table_after_files(files.take(i), table),
        file.compression_spec(),
        file.size_spec().1,
        file.file_name_spec(),
        stored[i],
    );
    RecordView {
        metadata: metadata_tree(file.metadata_spec()),
        compression: file.compression_spec(),
        file_name: file.file_name_spec(),
        size: (stored[i].len() as u64, file.size_spec().1),
        file_position: (15 + files_bytes(files.take(i), stored.take(i), table).len() + bytes.len()
            - stored[i].len()) as nat,
    }
}

/// A table whose strings are the strings it maps, each with its position as its ID, is the table that inserting its
/// strings in order builds.
proof fn lemma_table_of_consistent(table: StringTableView)
    requires
        consistent_table(table),
    ensures
        table_of(table.strings) == table,
{
    let strings = table.strings;
    lemma_consistent_distinct(table);
    table_of_distinct_strings(strings);
    let built = table_of(strings);
    assert(table.mapping.dom() =~= strings.to_set()) by {
        assert forall|s: Seq<char>| table.mapping.dom().contains(s) implies strings.to_set().contains(s) by {
            assert(strings[table.mapping[s] as int] == s);
        }
        assert forall|s: Seq<char>| strings.to_set().contains(s) implies table.mapping.dom().contains(s) by {
            let i = choose|i: int| 0 <= i < strings.len() && strings[i] == s;
            assert(table.mapping.dom().contains(strings[i]));
        }
    }
    if strings.len() > 0 {
        string_table_lookups_agree(strings, 0);
        assert forall|s: Seq<char>| #[trigger] built.mapping.dom().contains(s) implies built.mapping[s]
            == table.mapping[s] by {
            let i = choose|i: int| 0 <= i < strings.len() && strings[i] == s;
            string_table_lookups_agree(strings, i);
        }
        assert(built.mapping =~= table.mapping);
    } else {
        assert(table.mapping.dom() =~= Set::<Seq<char>>::empty());
        assert(built.mapping =~= table.mapping);
    }
    assert(built.strings =~= table.strings);
}

/// Each written file takes at least one byte.
proof fn lemma_files_bytes_len(files: Seq<File>, stored: Seq<Seq<u8>>, table: StringTableView)
    ensures
        files_bytes(files, stored, table).len() >= files.len(),
    decreases files.len(),
{
    if files.len() > 0 {
        lemma_files_bytes_len(files.drop_last(), stored.drop_last(), table);
        super::stream::lemma_le_bytes_len(0, 2);
        super::stream::lemma_le_bytes_len(1, 2);
    }
}

/// The bytes of the first `i` written files are no longer than those of the first `j`, for `i <= j`.
proof fn lemma_files_bytes_grow(files: Seq<File>, stored: Seq<Seq<u8>>, table: StringTableView, i: int, j: int)
    requires
        stored.len() == files.len(),
        0 <= i <= j <= files.len(),
    ensures
        files_bytes(files.take(i), stored.take(i), table).len() <= files_bytes(files.take(j), stored.take(j), table).len(),
{
    lemma_files_bytes_prefix(files.take(j), stored.take(j), table, i);
    assert(files.take(j).take(i) =~= files.take(i));
    assert(stored.take(j).take(i) =~= stored.take(i));
}

/// In a carton that `encode_mut` wrote, the `i`th file is read back from its metadata position.
#[verifier::spinoff_prover]
#[verifier::rlimit(100)]
proof fn lemma_written_record(
    before: Carton,
    after: Carton,
    contents: Seq<Vec<u8>>,
    stored: Seq<Seq<u8>>,
    bytes: Seq<u8>,
    i: int,
)
    requires
        encoded_carton(before, after, contents, stored, bytes),
        consistent_table(before.string_table.view()),
        restorable_files(before.file_table_spec().files_spec()),
        after.string_table.view().strings.len() < vlq_max(),
        bytes.len() <= u64::MAX,
        0 <= i < before.file_table_spec().files_spec().len(),
    ensures
        ({
            let files = before.file_table_spec().files_spec();
            let position = 15 + files_bytes(files.take(i), stored.take(i), before.string_table.view()).len();
            let record = written_record(files, stored, before.string_table.view(), i);
            &&& position < bytes.len()
            &&& record_parse(bytes, position, after.string_table.view().strings) == Ok::<RecordView, CartonFailure>(
                record,
            )
            &&& record.file_position + stored[i].len() <= bytes.len()
            &&& bytes.subrange(record.file_position as int, (record.file_position + stored[i].len()) as int)
                == stored[i]
        }),
{
    let files = before.file_table_spec().files_spec();
    let table = before.string_table.view();
    let strings = after.string_table.view().strings;
    let records = files_bytes(files, stored, table);
    let file = files[i];
    let here = table_after_files(files.take(i), table);
    let piece = stored_file_bytes(
        file.metadata_spec(),
        here,
        file.compression_spec(),
        file.size_spec().1,
        file.file_name_spec(),
        stored[i],
    );
    let earlier = files_bytes(files.take(i), stored.take(i), table);
    let position = 15 + earlier.len();
    super::stream::lemma_vlq_max();
    super::stream::lemma_le_bytes_len(15 + records.len(), 8);
    super::stream::lemma_le_bytes_len(0, 2);
    super::stream::lemma_le_bytes_len(1, 2);
    lemma_files_bytes_prefix(files, stored, table, i);
    lemma_files_bytes_prefix(files, stored, table, i + 1);
    assert(bytes.subrange(15, (15 + records.len()) as int) =~= records);
    assert(records.subrange(earlier.len() as int, (earlier.len() + piece.len()) as int) =~= piece) by {
        let upto = files_bytes(files.take(i + 1), stored.take(i + 1), table);
        assert(records.take(upto.len() as int) == upto);
        assert forall|k: int| 0 <= k < piece.len() implies records[earlier.len() + k] == piece[k] by {
            assert(upto[earlier.len() + k] == piece[k]);
            assert(records.take(upto.len() as int)[earlier.len() + k] == records[earlier.len() + k]);
        }
    }
    lemma_subrange_within(bytes, 15, records, earlier.len(), piece);
    lemma_table_after_files(files.take(i), table);
    lemma_table_after_prefix(files, table, i);
    lemma_table_after_prefix(files, table, i + 1);
    assert(files.take(i + 1).drop_last() =~= files.take(i));
    assert(files.take(i + 1).last() == file);
    assert(metadata_encoding(file.metadata_spec(), here).1 == table_after_files(files.take(i + 1), table));
    assert(stored[i].len() <= u64::MAX);
    record_roundtrip(
        bytes,
        position,
        file.metadata_spec(),
        here,
        file.compression_spec(),
        file.size_spec().1,
        file.file_name_spec(),
        stored[i],
        strings,
    );
    let offset = (piece.len() - stored[i].len()) as nat;
    assert(piece.subrange(offset as int, piece.len() as int) =~= stored[i]);
    lemma_subrange_within(bytes, position, piece, offset, stored[i]);
}

/// Reading a carton that `encode_mut` wrote gives back the file table's positions and the string table that were
/// written, and, for each file in order, its metadata, compression, name and sizes and where its stored contents start,
/// which is where they lie:
/// for a carton of this encoding's version that held no positions before, whose string table had each string's
/// position as its ID, and whose files read back as written; when it ends with fewer than `2^60` strings, each
/// shorter than `2^60` bytes, with 1 file and 2 strings modulo 256 (the low byte of each table's count names its kind),
/// and its bytes are at most `u64::MAX`.
#[verifier::spinoff_prover]
#[verifier::rlimit(100)]
pub proof fn carton_roundtrip(
    before: Carton,
    after: Carton,
    contents: Seq<Vec<u8>>,
    stored: Seq<Seq<u8>>,
    bytes: Seq<u8>,
)
    requires
        encoded_carton(before, after, contents, stored, bytes),
        before.version == CARTON_VERSION,
        before.file_table_spec().metadata_positions_spec().entries() == Seq::<(Seq<char>, u64)>::empty(),
        consistent_table(before.string_table.view()),
        restorable_files(before.file_table_spec().files_spec()),
        after.string_table.view().strings.len() < vlq_max(),
        short_strings(after.string_table.view().strings),
        before.file_table_spec().files_spec().len() % 256 == 1,
        after.string_table.view().strings.len() % 256 == 2,
        bytes.len() <= u64::MAX,
    ensures
        carton_decodable(bytes, 0),
        carton_parse(bytes, 0) == Ok::<(Seq<(Seq<char>, u64)>, StringTableView, Seq<RecordView>), CartonFailure>(
            (
                after.file_table_spec().metadata_positions_spec().entries(),
                after.string_table.view(),
                Seq::new(
                    before.file_table_spec().files_spec().len(),
                    |i: int|
                        written_record(before.file_table_spec().files_spec(), stored, before.string_table.view(), i),
                ),
            ),
        ),
        forall|i: int|
            0 <= i < before.file_table_spec().files_spec().len() ==> {
                let position = #[trigger] written_record(
                    before.file_table_spec().files_spec(),
                    stored,
                    before.string_table.view(),
                    i,
                ).file_position;
                &&& position + stored[i].len() <= bytes.len()
                &&& bytes.subrange(position as int, (position + stored[i].len()) as int) == stored[i]
            },
{
    let files = before.file_table_spec().files_spec();
    let table = before.string_table.view();
    let finished = after.string_table.view();
    let strings = finished.strings;
    let records = files_bytes(files, stored, table);
    let pointer = 15 + records.len();
    let entries = after.file_table_spec().metadata_positions_spec().entries();
    let count = files.len();
    let found = Seq::new(count, |i: int| written_record(files, stored, table, i));
    super::stream::lemma_vlq_max();
    super::stream::lemma_le_bytes_len(pointer, 8);
    super::stream::lemma_le_value_of_bytes(pointer, 8);
    super::stream::lemma_byte_pow_8();
    vstd::arithmetic::div_mod::lemma_small_mod(pointer, super::stream::byte_pow(8));
    // the header and the tables
    lemma_positions_written(files, stored, table);
    lemma_files_bytes_len(files, stored, table);
    assert(bytes.take(6) =~= carton_magic());
    assert(bytes.subrange(7, 15) =~= super::stream::le_bytes(pointer, 8));
    assert(bytes.skip(pointer as int) =~= file_table_bytes(entries) + archive_table_bytes(finished));
    assert(distinct_keys(entries)) by {
        assert forall|a: int, b: int| 0 <= a < b < entries.len() implies entries[a].0 != entries[b].0 by {
            assert(files[a].file_name_spec() != files[b].file_name_spec());
        }
    }
    assert(short_names(entries)) by {
        assert forall|k: int| 0 <= k < entries.len() implies vstd::utf8::encode_utf8(#[trigger] entries[k].0).len()
            < vlq_max() by {
            assert(restorable_description(files[k].compression_spec(), files[k].file_name_spec()));
        }
    }
    carton_tables_roundtrip(bytes, entries, finished);
    lemma_table_after_files(files, table);
    lemma_table_of_consistent(finished);
    // the files, in the order they were written
    assert forall|a: int, b: int| 0 <= a < b < count implies #[trigger] entries[a].1 <= #[trigger] entries[b].1 by {
        lemma_files_bytes_grow(files, stored, table, a, b);
        lemma_files_bytes_grow(files, stored, table, b, count as int);
        assert(files.take(count as int) =~= files);
        assert(stored.take(count as int) =~= stored);
    }
    lemma_position_order_sorted(entries, count);
    assert(index_range(0, count as int) =~= position_order(entries, count));
    assert forall|i: int| 0 <= i < count implies entries[i].1 < bytes.len() && record_parse(
        bytes,
        entries[i].1 as nat,
        strings,
    ) == Ok::<RecordView, CartonFailure>(#[trigger] found[i]) && found[i].file_name == entries[i].0 by {
        lemma_written_record(before, after, contents, stored, bytes, i);
        lemma_files_bytes_grow(files, stored, table, i, count as int);
        assert(files.take(count as int) =~= files);
        assert(stored.take(count as int) =~= stored);
    }
    lemma_records_in_order(bytes, entries, strings, found, 0);
    assert(found.skip(0) =~= found);
    assert forall|i: int| 0 <= i < count implies {
        let position = #[trigger] written_record(files, stored, table, i).file_position;
        &&& position + stored[i].len() <= bytes.len()
        &&& bytes.subrange(position as int, (position + stored[i].len()) as int) == stored[i]
    } by {
        lemma_written_record(before, after, contents, stored, bytes, i);
    }
}

/// Reads the magic number and version, and hands out the table pointer.
fn read_header(stream: &mut FileReadStream) -> (result: Result<u64, CartonError>)
    ensures
        final(stream).data() == old(stream).data(),
        match header_parse(old(stream).data(), old(stream).cursor()) {
            Ok(pointer) => result == Ok::<u64, CartonError>(pointer as u64),
            Err(failure) => result matches Err(error) && reports(error, failure),
        },
{
    let ghost data = stream.data();
    let ghost start = stream.cursor();
    let expected: [u8; 6] = [67, 65, 82, 84, 79, 78];
    let mut matches = true;
    let mut i: usize = 0;
    proof {
        super::file_stream::lemma_window_split(data, start, 0, 6);
        assert(window(data, start, 0) =~= Seq::<u8>::empty());
    }
    while i < 6
        invariant
            stream.data() == data,
            i <= 6,
            stream.cursor() == advance(data.len(), start, i as nat),
            matches == (forall|j: int| 0 <= j < i ==> window(data, start, 6)[j] == expected@[j]),
        decreases 6 - i,
    {
        let ghost here = stream.cursor();
        let (character, _) = stream.read_char();
        proof {
            super::file_stream::lemma_window_split(data, start, i as nat, 1);
            super::file_stream::lemma_window_split(data, start, (i + 1) as nat, (5 - i) as nat);
            assert(window(data, start, (i + 1) as nat)[i as int] == window(data, here, 1)[0]);
            assert(window(data, start, 6)[i as int] == window(data, start, (i + 1) as nat)[i as int]);
        }
        if character as u8 != expected[i] {
            matches = false;
        }
        i = i + 1;
    }
    proof {
        assert(expected@ =~= carton_magic());
        if matches {
            assert(window(data, start, 6) =~= carton_magic());
        }
    }
    if !matches {
        return Err(CartonError::InvalidMagicNumber);
    }

    // check the carton version
    let (version, _) = stream.read_u8();
    if version != CARTON_VERSION {
        return Err(CartonError::InvalidVersion);
    }

    // load tables
    let (table_pointer, _) = stream.read_u64();
    proof {
        super::file_stream::lemma_window_split(data, start, 6, 1);
        assert(advance(data.len(), advance(data.len(), start, 6), 1) == advance(data.len(), start, 7));
    }
    Ok(table_pointer)
}

/// Reads tables until the end of the file, each identified by its first byte.
fn read_tables(stream: &mut FileReadStream, file_table: &mut FileTable, string_table: &mut StringTable) -> (result:
    Result<(), CartonError>)
    requires
        old(file_table).wf(),
        old(string_table).wf(),
        old(file_table).files_spec() == Seq::<File>::empty(),
        old(file_table).file_positions_spec().entries() == Seq::<(Seq<char>, u64)>::empty(),
    ensures
        final(stream).data() == old(stream).data(),
        final(file_table).wf(),
        final(string_table).wf(),
        final(file_table).files_spec() == Seq::<File>::empty(),
        final(file_table).file_positions_spec().entries() == Seq::<(Seq<char>, u64)>::empty(),
        match tables_parse(
            old(stream).data(),
            old(stream).cursor(),
            old(file_table).metadata_positions_spec().entries(),
            old(string_table).view(),
        ) {
            Ok((entries, strings)) => result is Ok && final(file_table).metadata_positions_spec().entries() == entries
                && final(string_table).view() == strings,
            Err(failure) => result matches Err(error) && reports(error, failure),
        },
{
    let ghost data = stream.data();
    let ghost goal = tables_parse(
        data,
        stream.cursor(),
        file_table.metadata_positions_spec().entries(),
        string_table.view(),
    );
    while !stream.is_at_end()
        invariant
            stream.data() == data,
            data == old(stream).data(),
            file_table.wf(),
            string_table.wf(),
            file_table.files_spec() == Seq::<File>::empty(),
            file_table.file_positions_spec().entries() == Seq::<(Seq<char>, u64)>::empty(),
            goal == tables_parse(
                old(stream).data(),
                old(stream).cursor(),
                old(file_table).metadata_positions_spec().entries(),
                old(string_table).view(),
            ),
            goal == tables_parse(
                data,
                stream.cursor(),
                file_table.metadata_positions_spec().entries(),
                string_table.view(),
            ),
        decreases remaining(data, stream.cursor()),
    {
        let ghost here = stream.cursor();
        let byte = stream.peek();
        let table_id = TableID::from(byte);
        proof {
            assert(byte == data[here as int]);
            lemma_rows_parse_forward(
                data,
                advance(data.len(), here, 8),
                le_value(window(data, here, 8)),
                Seq::empty(),
            );
            lemma_archive_strings_parse_forward(
                data,
                advance(data.len(), here, 8),
                le_value(window(data, here, 8)),
                table_of(Seq::empty()),
            );
        }
        match table_id {
            TableID::Invalid => return Err(CartonError::UnexpectedTable),
            TableID::FileTable => {
                // partially load the file table, only file name -> metadata position map is valid
                let (table, _) = match FileTable::decode(stream) {
                    Ok(pair) => pair,
                    Err(error) => return Err(error),
                };
                let old_files = file_table.take_files();
                *file_table = table;
                proof {
                    assert(old_files@ == Seq::<File>::empty());
                }
            },
            TableID::StringTable => {
                // fully load the string table
                let (table, _) = match StringTable::decode_archive(stream) {
                    Ok(pair) => pair,
                    Err(error) => return Err(error),
                };
                *string_table = table;
            },
        }
    }
    Ok(())
}

/// A list of indices as integers.
pub open spec fn as_ints(indices: Seq<usize>) -> Seq<int> {
    indices.map_values(|index: usize| index as int)
}

proof fn lemma_insert_by_position(order: Seq<int>, entries: Seq<(Seq<char>, u64)>, k: int, j: int)
    requires
        0 <= j <= order.len(),
        forall|i: int| 0 <= i < j ==> entries[order[i]].1 <= entries[k].1,
        j < order.len() ==> entries[order[j]].1 > entries[k].1,
    ensures
        insert_by_position(order, entries, k) == order.take(j) + seq![k] + order.skip(j),
    decreases order.len(),
{
    if order.len() == 0 {
        assert(order.take(j) + seq![k] + order.skip(j) =~= seq![k]);
    } else if j == 0 {
        assert(order.take(0) + seq![k] + order.skip(0) =~= seq![k] + order);
    } else {
        let rest = order.drop_first();
        assert forall|i: int| 0 <= i < j - 1 implies entries[rest[i]].1 <= entries[k].1 by {
            assert(rest[i] == order[i + 1]);
        }
        if j - 1 < rest.len() {
            assert(rest[j - 1] == order[j]);
        }
        lemma_insert_by_position(rest, entries, k, j - 1);
        assert(seq![order[0]] + (rest.take(j - 1) + seq![k] + rest.skip(j - 1)) =~= order.take(j) + seq![k]
            + order.skip(j));
    }
}

/// Orders the entries' indices by position; entries with equal positions keep their table order.
fn sort_positions(positions: &PositionMap) -> (order: Vec<usize>)
    ensures
        as_ints(order@) == position_order(positions.entries(), positions.entries().len()),
        forall|i: int| 0 <= i < order@.len() ==> (#[trigger] order@[i]) < positions.entries().len(),
{
    let ghost entries = positions.entries();
    let count = positions.len();
    let mut order: Vec<usize> = Vec::new();
    for k in 0..count
        invariant
            count == entries.len(),
            entries == positions.entries(),
            as_ints(order@) == position_order(entries, k as nat),
            forall|i: int| 0 <= i < order@.len() ==> (#[trigger] order@[i]) < k,
    {
        let (_, position) = positions.entry(k);
        let mut j: usize = 0;
        while j < order.len()
            invariant
                j <= order@.len(),
                count == entries.len(),
                entries == positions.entries(),
                k < count,
                position == entries[k as int].1,
                forall|i: int| 0 <= i < order@.len() ==> (#[trigger] order@[i]) < k,
                forall|i: int| 0 <= i < j ==> entries[order@[i] as int].1 <= position,
            ensures
                j == order@.len() || entries[order@[j as int] as int].1 > position,
            decreases order@.len() - j,
        {
            let (_, other) = positions.entry(order[j]);
            if other > position {
                break;
            }
            j = j + 1;
        }
        proof {
            let ints = as_ints(order@);
            assert forall|i: int| 0 <= i < j implies entries[ints[i]].1 <= entries[k as int].1 by {}
        }
        let ghost before = order@;
        order.insert(j, k);
        proof {
            lemma_insert_by_position(as_ints(before), entries, k as int, j as int);
            assert(as_ints(order@) =~= as_ints(before).take(j as int) + seq![k as int] + as_ints(before).skip(
                j as int,
            ));
            assert forall|i: int| 0 <= i < order@.len() implies (#[trigger] order@[i]) < k + 1 by {
                if i < j {
                    assert(order@[i] == before[i]);
                } else if i > j {
                    assert(order@[i] == before[i - 1]);
                }
            }
        }
    }
    order
}


/// What was read of one stored file: its description, where its metadata starts, how long the metadata is, and the
/// metadata.
pub type FoundFile = (IntermediateFile, u64, u64, Option<MetadataValue>);

/// Whether what was read of a stored file is what the carton stores for it.
pub open spec fn found_matches(found: FoundFile, record: RecordView) -> bool {
    &&& found.0.compression@ == record.compression
    &&& found.0.file_name@ == record.file_name
    &&& found.0.size == record.size
    &&& found.1 + found.2 + found.0.file_offset == record.file_position
    &&& match found.3 {
        None => record.metadata is None,
        Some(value) => record.metadata == Some(tree_of(value)),
    }
}

/// The outcome of reading the files that `order` lists from the `done`th on, after `done` files were read.
pub open spec fn after_read(done: Seq<RecordView>, rest: Result<Seq<RecordView>, CartonFailure>) -> Result<
    Seq<RecordView>,
    CartonFailure,
> {
    match rest {
        Ok(records) => Ok(done + records),
        Err(failure) => Err(failure),
    }
}

/// Reads one stored file, metadata first, at `position`, where the file table says the file `name` is stored.
fn read_record(stream: &mut FileReadStream, name: &String, position: u64, string_table: &StringTable) -> (result:
    Result<FoundFile, CartonError>)
    requires
        position < old(stream).data().len(),
        !(old(stream).data()[position as int] == 7 && meets_unsupported(
            old(stream).data(),
            position as nat,
            string_table.view().strings,
        )),
    ensures
        final(stream).data() == old(stream).data(),
        match record_parse(old(stream).data(), position as nat, string_table.view().strings) {
            Ok(record) => if record.file_name == name@ {
                result matches Ok(found) && found_matches(found, record) && found.1 == position && found.0.file_name@
                    == name@ && found.1 + found.2 + found.0.file_offset <= u64::MAX
            } else {
                result matches Err(CartonError::UnexpectedFileName)
            },
            Err(failure) => result matches Err(error) && reports(error, failure),
        },
{
    let ghost data = stream.data();
    proof {
        reveal(record_parse);
    }
    stream.seek(position);
    let check_value = stream.peek();
    let metadata = if check_value == 7 {
        match decode_value(stream, string_table) {
            Ok((value, _)) => Some(value),
            Err(error) => return Err(error),
        }
    } else {
        None
    };
    let metadata_length = stream.get_position() - position;
    let (file, _) = match decode_file(stream) {
        Ok(pair) => pair,
        Err(error) => return Err(error),
    };
    let end = stream.get_position();
    if file.file_name != *name {
        return Err(CartonError::UnexpectedFileName);
    }
    Ok((file, position, metadata_length, metadata))
}

/// Reading the listed files gives one record per listed file.
proof fn lemma_records_len(
    data: Seq<u8>,
    entries: Seq<(Seq<char>, u64)>,
    order: Seq<int>,
    strings: Seq<Seq<char>>,
)
    ensures
        records_parse(data, entries, order, strings) matches Ok(records) ==> records.len() == order.len(),
    decreases order.len(),
{
    reveal(records_parse);
    if order.len() > 0 {
        lemma_records_len(data, entries, order.drop_first(), strings);
    }
}

/// Reading the file that `ints[i]` lists decides the outcome of reading the files from the `i`th on.
proof fn lemma_records_step(
    data: Seq<u8>,
    entries: Seq<(Seq<char>, u64)>,
    ints: Seq<int>,
    i: int,
    strings: Seq<Seq<char>>,
    done: Seq<RecordView>,
)
    requires
        0 <= i < ints.len(),
        0 <= ints[i] < entries.len(),
        records_decodable(data, entries, ints.skip(i), strings),
    ensures
        entries[ints[i]].1 < data.len(),
        !(data[entries[ints[i]].1 as int] == 7 && meets_unsupported(data, entries[ints[i]].1 as nat, strings)),
        match record_parse(data, entries[ints[i]].1 as nat, strings) {
            Ok(record) => if record.file_name == entries[ints[i]].0 {
                &&& records_decodable(data, entries, ints.skip(i + 1), strings)
                &&& after_read(done, records_parse(data, entries, ints.skip(i), strings)) == after_read(
                    done.push(record),
                    records_parse(data, entries, ints.skip(i + 1), strings),
                )
            } else {
                after_read(done, records_parse(data, entries, ints.skip(i), strings)) == Err::<
                    Seq<RecordView>,
                    CartonFailure,
                >(CartonFailure::UnexpectedFileName)
            },
            Err(failure) => after_read(done, records_parse(data, entries, ints.skip(i), strings)) == Err::<
                Seq<RecordView>,
                CartonFailure,
            >(failure),
        },
{
    reveal(records_parse);
    reveal(records_decodable);
    let listed = ints.skip(i);
    assert(listed[0] == ints[i]);
    assert(listed.drop_first() =~= ints.skip(i + 1));
    match record_parse(data, entries[ints[i]].1 as nat, strings) {
        Ok(record) => {
            if record.file_name == entries[ints[i]].0 {
                match records_parse(data, entries, ints.skip(i + 1), strings) {
                    Ok(records) => assert(done + (seq![record] + records) =~= done.push(record) + records),
                    Err(_) => {},
                }
            }
        },
        Err(_) => {},
    }
}

/// Whether reading the files at the positions that `order` lists runs to a result.
fn records_checkable(
    stream: &mut FileReadStream,
    positions: &PositionMap,
    order: &Vec<usize>,
    string_table: &StringTable,
) -> (result: bool)
    requires
        forall|i: int| 0 <= i < order@.len() ==> (#[trigger] order@[i]) < positions.entries().len(),
    ensures
        result == records_decodable(old(stream).data(), positions.entries(), as_ints(order@), string_table.view().strings),
{
    let ghost data = stream.data();
    let ghost entries = positions.entries();
    let ghost ints = as_ints(order@);
    let ghost strings = string_table.view().strings;
    let length = stream.data_len();
    let mut i: usize = 0;
    proof {
        assert(ints.skip(0) =~= ints);
    }
    while i < order.len()
        invariant
            stream.data() == data,
            data == old(stream).data(),
            length == data.len(),
            entries == positions.entries(),
            strings == string_table.view().strings,
            ints == as_ints(order@),
            ints.len() == order@.len(),
            forall|k: int| 0 <= k < order@.len() ==> (#[trigger] order@[k]) < entries.len(),
            i <= order@.len(),
            records_decodable(data, entries, ints, strings) == records_decodable(
                data,
                entries,
                ints.skip(i as int),
                strings,
            ),
        decreases order@.len() - i,
    {
        let ghost listed = ints.skip(i as int);
        proof {
            reveal(records_decodable);
            reveal(records_parse);
            assert(listed[0] == ints[i as int]);
            assert(ints[i as int] == order@[i as int] as int);
            assert(listed.drop_first() =~= ints.skip(i + 1));
        }
        let (name, position) = positions.entry(order[i]);
        if position >= length {
            return false;
        }
        stream.seek(position);
        let kind = stream.peek();
        if kind == 7 {
            stream.seek(position);
            if is_unsupported_at(stream, string_table) {
                return false;
            }
        }
        match read_record(stream, name, position, string_table) {
            Ok(_) => {},
            Err(_) => {
                proof {
                    reveal(record_parse);
                }
                return true;
            },
        }
        i = i + 1;
    }
    proof {
        reveal(records_decodable);
        assert(ints.skip(i as int) =~= Seq::<int>::empty());
    }
    true
}

/// Reads the stored files, metadata first, at the positions that `order` lists, in that order.
fn read_records(stream: &mut FileReadStream, positions: &PositionMap, order: &Vec<usize>, string_table: &StringTable)
    -> (result: Result<Vec<FoundFile>, CartonError>)
    requires
        forall|i: int| 0 <= i < order@.len() ==> (#[trigger] order@[i]) < positions.entries().len(),
        records_decodable(old(stream).data(), positions.entries(), as_ints(order@), string_table.view().strings),
    ensures
        final(stream).data() == old(stream).data(),
        match records_parse(old(stream).data(), positions.entries(), as_ints(order@), string_table.view().strings) {
            Ok(records) => result matches Ok(found) && found@.len() == records.len() && forall|i: int|
                0 <= i < records.len() ==> found_matches(#[trigger] found@[i], records[i]) && found@[i].1
                    == positions.entries()[order@[i] as int].1 && found@[i].0.file_name@ == positions.entries()[order@[
                    i] as int].0 && found@[i].1 + found@[i].2 + found@[i].0.file_offset <= u64::MAX,
            Err(failure) => result matches Err(error) && reports(error, failure),
        },
{
    let ghost data = stream.data();
    let ghost entries = positions.entries();
    let ghost ints = as_ints(order@);
    let ghost strings = string_table.view().strings;
    let ghost mut done: Seq<RecordView> = Seq::empty();
    let mut found: Vec<FoundFile> = Vec::new();
    let mut i: usize = 0;
    proof {
        assert(ints.skip(0) =~= ints);
        match records_parse(data, entries, ints, strings) {
            Ok(records) => assert(done + records =~= records),
            Err(_) => {},
        }
    }
    while i < order.len()
        invariant
            stream.data() == data,
            data == old(stream).data(),
            entries == positions.entries(),
            strings == string_table.view().strings,
            ints == as_ints(order@),
            ints.len() == order@.len(),
            forall|k: int| 0 <= k < order@.len() ==> (#[trigger] order@[k]) < entries.len(),
            i <= order@.len(),
            found@.len() == i,
            done.len() == i,
            forall|k: int|
                0 <= k < i ==> found_matches(#[trigger] found@[k], done[k]) && found@[k].1 == entries[order@[k] as int].1
                    && found@[k].0.file_name@ == entries[order@[k] as int].0 && found@[k].1 + found@[k].2
                    + found@[k].0.file_offset <= u64::MAX,
            records_parse(data, entries, ints, strings) == after_read(
                done,
                records_parse(data, entries, ints.skip(i as int), strings),
            ),
            records_decodable(data, entries, ints.skip(i as int), strings),
        decreases order@.len() - i,
    {
        proof {
            assert(ints[i as int] == order@[i as int] as int);
            lemma_records_step(data, entries, ints, i as int, strings, done);
        }
        let (name, position) = positions.entry(order[i]);
        let entry = match read_record(stream, name, position, string_table) {
            Ok(entry) => entry,
            Err(error) => return Err(error),
        };
        proof {
            done = done.push(record_parse(data, position as nat, strings)->Ok_0);
        }
        found.push(entry);
        i = i + 1;
    }
    proof {
        reveal(records_parse);
        assert(ints.skip(i as int) =~= Seq::<int>::empty());
        assert(done + Seq::<RecordView>::empty() =~= done);
    }
    Ok(found)
}

/// Where each file's stored contents start, as reading the records one after another sets them.
pub open spec fn stored_positions(records: Seq<RecordView>) -> Map<Seq<char>, u64>
    decreases records.len(),
{
    if records.len() == 0 {
        Map::empty()
    } else {
        stored_positions(records.drop_last()).insert(records.last().file_name, records.last().file_position as u64)
    }
}

/// Whether a file of a carton is the file that a record describes, its metadata included.
pub open spec fn describes(file: File, record: RecordView) -> bool {
    &&& file.compression_spec() == record.compression
    &&& file.file_name_spec() == record.file_name
    &&& file.size_spec() == record.size
    &&& match record.metadata {
        None => file.metadata_spec() is None,
        Some(tree) => file.metadata_spec() matches Some(metadata) && tree_of(metadata.value_spec()) == tree
            && metadata.file_name_spec() == record.file_name,
    }
}

impl Carton {
    /// Decode a carton. Carton files first check the file's magic number and carton encoding version, and then move
    /// onto decoding the file table and string table. Afterwards, all files and their metadata are decoded, in the
    /// order they were written. The only data loaded into memory are the representations of the files, instead of
    /// their entire contents. Metadata is always memory resident.
    pub fn decode(stream: &mut FileReadStream) -> (result: Result<(Carton, StreamPosition), CartonError>)
        requires
            carton_decodable(old(stream).data(), old(stream).cursor()),
        ensures
            final(stream).data() == old(stream).data(),
            match carton_parse(old(stream).data(), old(stream).cursor()) {
                Ok((entries, strings, records)) => result matches Ok((carton, position)) && carton.wf()
                    && carton.file_spec() is None && carton.version == CARTON_VERSION && carton.string_table.view()
                    == strings && carton.file_table_spec().metadata_positions_spec().map() == entries_map(entries)
                    && carton.file_table_spec().file_positions_spec().map() == stored_positions(records)
                    && carton.file_table_spec().files_spec().len() == records.len() && (forall|i: int|
                    0 <= i < records.len() ==> describes(#[trigger] carton.file_table_spec().files_spec()[i], records[i]))
                    && position == final(stream).cursor(),
                Err(failure) => result matches Err(error) && reports(error, failure),
            },
    {
        let ghost data = stream.data();
        let mut carton = Carton::default();

        // check the magic number and version, and load tables
        let table_pointer = match read_header(stream) {
            Ok(pointer) => pointer,
            Err(error) => return Err(error),
        };
        proof {
            let pointer = le_value(window(data, advance(data.len(), old(stream).cursor(), 7), 8));
            super::stream::lemma_le_value_bound(window(data, advance(data.len(), old(stream).cursor(), 7), 8));
            super::stream::lemma_byte_pow_8();
            assert(table_pointer == pointer);
        }
        stream.seek(table_pointer);
        match read_tables(stream, &mut carton.file_table, &mut carton.string_table) {
            Ok(()) => {},
            Err(error) => return Err(error),
        }
        let ghost entries = carton.file_table.metadata_positions_spec().entries();
        let ghost strings = carton.string_table.view();

        // load metadata and files from the carton in the order that they were written
        let order = sort_positions(carton.file_table.get_metadata_positions());
        let found = match read_records(
            stream,
            carton.file_table.get_metadata_positions(),
            &order,
            &carton.string_table,
        ) {
            Ok(found) => found,
            Err(error) => return Err(error),
        };
        let ghost records = records_parse(data, entries, as_ints(order@), strings.strings)->Ok_0;
        proof {
            lemma_records_len(data, entries, as_ints(order@), strings.strings);
        }

        // finish off loading the file table
        let mut found = found;
        let ghost all_found = found@;
        let count = found.len();
        let mut k: usize = 0;
        proof {
            assert(all_found.skip(0) =~= all_found);
            assert(records.take(0) =~= Seq::<RecordView>::empty());
            assert(carton.file_table.file_positions_spec().map() =~= Map::<Seq<char>, u64>::empty());
        }
        while k < count
            invariant
                count == all_found.len(),
                all_found.len() == records.len(),
                order@.len() == records.len(),
                forall|i: int| 0 <= i < order@.len() ==> (#[trigger] order@[i]) < entries.len(),
                forall|i: int|
                    0 <= i < records.len() ==> found_matches(#[trigger] all_found[i], records[i]) && all_found[i].1
                        == entries[order@[i] as int].1 && all_found[i].0.file_name@ == entries[order@[i] as int].0
                        && all_found[i].1 + all_found[i].2 + all_found[i].0.file_offset <= u64::MAX,
                k <= count,
                found@ == all_found.skip(k as int),
                carton.wf(),
                carton.file_spec() is None,
                carton.version == CARTON_VERSION,
                carton.string_table.view() == strings,
                distinct_keys(entries),
                carton.file_table_spec().metadata_positions_spec().map() == entries_map(entries),
                carton.file_table_spec().file_positions_spec().map() == stored_positions(records.take(k as int)),
                carton.file_table_spec().files_spec().len() == k,
                forall|i: int| 0 <= i < k ==> describes(#[trigger] carton.file_table_spec().files_spec()[i], records[i]),
            decreases count - k,
        {
            let (file, position, metadata_length, metadata) = found.remove(0);
            proof {
                assert(all_found[k as int] == (file, position, metadata_length, metadata));
                assert(found@ =~= all_found.skip(k + 1));
                lemma_entries_map_get(entries, order@[k as int] as int);
                assert(entries_map(entries).insert(file.file_name@, position) =~= entries_map(entries));
                assert(records.take(k + 1).drop_last() =~= records.take(k as int));
            }
            carton.file_table.update_position(file.file_name.as_str(), position, position + metadata_length + file.file_offset);
            carton.file_table.add_from_intermediate(File::from_intermediate(file, metadata));
            k = k + 1;
        }
        proof {
            assert(records.take(count as int) =~= records);
        }
        Ok((carton, stream.get_position()))
    }

    /// Whether decoding a carton from these bytes runs to a result: every stored file's position lies inside the
    /// bytes, and no metadata holds a float or datetime, which have no decoding yet.
    pub fn can_read(data: &Vec<u8>) -> (result: bool)
        ensures
            result == carton_decodable(data@, 0),
    {
        let mut stream = FileReadStream::new(data.clone());
        let mut file_table = FileTable::new();
        let mut string_table = StringTable::new();
        let ghost bytes = stream.data();
        let table_pointer = match read_header(&mut stream) {
            Ok(pointer) => pointer,
            Err(_) => return true,
        };
        proof {
            let pointer = le_value(window(bytes, advance(bytes.len(), 0, 7), 8));
            super::stream::lemma_le_value_bound(window(bytes, advance(bytes.len(), 0, 7), 8));
            super::stream::lemma_byte_pow_8();
            assert(table_pointer == pointer);
        }
        stream.seek(table_pointer);
        match read_tables(&mut stream, &mut file_table, &mut string_table) {
            Ok(()) => {},
            Err(_) => return true,
        }
        let order = sort_positions(file_table.get_metadata_positions());
        records_checkable(&mut stream, file_table.get_metadata_positions(), &order, &string_table)
    }

    /// Decodes a carton from the bytes of a `.carton` file and keeps the bytes for reading files later.
    pub fn read(data: Vec<u8>) -> (result: Result<Carton, CartonError>)
        requires
            carton_decodable(data@, 0),
        ensures
            match carton_parse(data@, 0) {
                Ok((entries, strings, records)) => result matches Ok(carton) && carton.wf() && carton.file_spec()
                    == Some(data@) && carton.version == CARTON_VERSION && carton.string_table.view() == strings
                    && carton.file_table_spec().metadata_positions_spec().map() == entries_map(entries)
                    && carton.file_table_spec().file_positions_spec().map() == stored_positions(records)
                    && carton.file_table_spec().files_spec().len() == records.len() && (forall|i: int|
                    0 <= i < records.len() ==> describes(#[trigger] carton.file_table_spec().files_spec()[i], records[i])),
                Err(failure) => result matches Err(error) && reports(error, failure),
            },
    {
        let mut stream = FileReadStream::new(data.clone());
        let (mut carton, _) = match Carton::decode(&mut stream) {
            Ok(pair) => pair,
            Err(error) => return Err(error),
        };
        carton.file = Some(data);
        Ok(carton)
    }
}

impl Carton {
    /// A stream over the stored contents of the file named `file_name`, once the carton was read from a file.
    pub fn get_file_data<'a>(&'a self, file_name: &str) -> (result: Result<CartonFileReadStream<'a>, CartonError>)
        ensures
            self.file_spec() is None ==> result matches Err(CartonError::FileNotOpen),
            self.file_spec() is Some && !(exists|i: int|
                0 <= i < self.file_table_spec().files_spec().len() && (#[trigger] self.file_table_spec().files_spec()[
                    i]).file_name_spec() == file_name@) ==> result matches Err(CartonError::DecodedFileNotFound),
            self.file_spec() is Some && (exists|i: int|
                0 <= i < self.file_table_spec().files_spec().len() && (#[trigger] self.file_table_spec().files_spec()[
                    i]).file_name_spec() == file_name@) ==> (result matches Ok(stream) && stream.carton == self
                && stream.file.file_name_spec() == file_name@ && stream.position == 0 && (exists|i: int|
                0 <= i < self.file_table_spec().files_spec().len() && *stream.file
                    == #[trigger] self.file_table_spec().files_spec()[i])),
    {
        if self.file.is_none() {
            return Err(CartonError::FileNotOpen);
        }
        let files = self.file_table.get_files();
        let key = file_name.to_owned();
        for i in 0..files.len()
            invariant
                files@ == self.file_table_spec().files_spec(),
                self.file_spec() is Some,
                key@ == file_name@,
                forall|j: int| 0 <= j < i ==> (#[trigger] files@[j]).file_name_spec() != file_name@,
        {
            let name = files[i].get_file_name().to_owned();
            if name == key {
                return CartonFileReadStream::new(self, &files[i]);
            }
        }
        Err(CartonError::DecodedFileNotFound)
    }
}

/// Whether `bytes` holds `word` somewhere.
pub open spec fn holds_word(bytes: Seq<u8>, word: Seq<u8>) -> bool {
    exists|i: int| 0 <= i && i + word.len() <= bytes.len() && #[trigger] bytes.subrange(i, i + word.len()) == word
}

/// The bytes of `metadata`.
pub open spec fn metadata_word() -> Seq<u8> {
    seq![109u8, 101u8, 116u8, 97u8, 100u8, 97u8, 116u8, 97u8]
}

/// The bytes of `toml`.
pub open spec fn toml_word() -> Seq<u8> {
    seq![116u8, 111u8, 109u8, 108u8]
}

/// Whether `bytes` holds `word` somewhere.
fn find_word(bytes: &[u8], word: &[u8]) -> (found: bool)
    requires
        word@.len() > 0,
    ensures
        found == holds_word(bytes@, word@),
{
    let n = bytes.len();
    let w = word.len();
    if w > n {
        return false;
    }
    let last = n - w;
    let mut i: usize = 0;
    while i <= last
        invariant
            n == bytes@.len(),
            w == word@.len(),
            w > 0,
            last == bytes@.len() - word@.len(),
            i <= last + 1,
            forall|k: int| 0 <= k < i ==> #[trigger] bytes@.subrange(k, k + word@.len()) != word@,
        decreases last + 1 - i,
    {
        let mut matches = true;
        for j in 0..word.len()
            invariant
                n == bytes@.len(),
                w == word@.len(),
                i <= last,
                last == bytes@.len() - word@.len(),
                matches == (forall|m: int| 0 <= m < j ==> bytes@[i + m] == word@[m]),
        {
            if bytes[i + j] != word[j] {
                matches = false;
            }
        }
        if matches {
            proof {
                assert(bytes@.subrange(i as int, i + word@.len()) =~= word@);
            }
            return true;
        }
        proof {
            assert(bytes@.subrange(i as int, i + word@.len()) != word@) by {
                let m = choose|m: int| 0 <= m < word@.len() && bytes@[i + m] != word@[m];
                assert(bytes@.subrange(i as int, i + word@.len())[m] != word@[m]);
            }
        }
        i = i + 1;
    }
    proof {
        assert forall|k: int| 0 <= k && k + word@.len() <= bytes@.len() implies #[trigger] bytes@.subrange(
            k,
            k + word@.len(),
        ) != word@ by {
            assert(k < i);
        }
    }
    false
}

/// Whether a file found in a directory goes into a carton: metadata files, and files whose path mentions `metadata` or
/// `toml`, stay out.
pub fn is_carton_content(file_name: &str) -> (content: bool)
    ensures
        content == !(holds_word(vstd::utf8::encode_utf8(file_name@), metadata_word()) || holds_word(
            vstd::utf8::encode_utf8(file_name@),
            toml_word(),
        )),
{
    let bytes = file_name.as_bytes();
    let metadata: [u8; 8] = [109, 101, 116, 97, 100, 97, 116, 97];
    let toml: [u8; 4] = [116, 111, 109, 108];
    proof {
        assert(metadata@ =~= metadata_word());
        assert(toml@ =~= toml_word());
    }
    !(find_word(bytes, metadata.as_slice()) || find_word(bytes, toml.as_slice()))
}

} // verus!
