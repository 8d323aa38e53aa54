use vstd::prelude::*;

use super::error::CartonError;
use super::file::File;
use super::file_stream::{
    advance, lemma_window_inside, utf8_string_bytes, utf8_string_roundtrip, vlq_at, window, write_utf8_string,
    FileReadStream, StreamPosition,
};
use super::stream::writing::write_u64;
use super::stream::{le_bytes, le_value, vlq_max};
use crate::table::{
    distinct_keys, entries_map, lemma_entries_map_dom, lemma_entries_map_get, lemma_entries_map_push, lemma_entries_map_update,
};

verus! {

/// The identifier of a table, read from the first byte of the table.
#[derive(Clone, Copy, Debug, PartialEq, Eq, Structural)]
pub enum TableID {
    Invalid,
    FileTable,
    StringTable,
}

/// The table that a first byte names.
pub open spec fn table_id_of(table_id: u8) -> TableID {
    if table_id == 1 {
        TableID::FileTable
    } else if table_id == 2 {
        TableID::StringTable
    } else {
        TableID::Invalid
    }
}

impl From<u8> for TableID {
    fn from(table_id: u8) -> (id: Self) {
        match table_id {
            1 => TableID::FileTable,
            2 => TableID::StringTable,
            _ => TableID::Invalid,
        }
    }
}

impl vstd::std_specs::convert::FromSpecImpl<u8> for TableID {
    open spec fn obeys_from_spec() -> bool {
        true
    }

    open spec fn from_spec(table_id: u8) -> TableID {
        table_id_of(table_id)
    }
}

/// The entries after setting a name's position: an existing entry for the name gets the position, else the entry
/// goes last.
pub open spec fn set_position(entries: Seq<(Seq<char>, u64)>, name: Seq<char>, position: u64) -> Seq<
    (Seq<char>, u64),
> {
    if exists|i: int| 0 <= i < entries.len() && entries[i].0 == name {
        entries.update(choose|i: int| 0 <= i < entries.len() && entries[i].0 == name, (name, position))
    } else {
        entries.push((name, position))
    }
}

/// The bytes of position rows: each name as a string, then its position in 8 bytes.
pub open spec fn rows_bytes(entries: Seq<(Seq<char>, u64)>) -> Seq<u8>
    decreases entries.len(),
{
    if entries.len() == 0 {
        Seq::empty()
    } else {
        rows_bytes(entries.drop_last()) + utf8_string_bytes(entries.last().0) + le_bytes(entries.last().1 as nat, 8)
    }
}

/// The bytes of a file table: its row count in 8 bytes, then its rows.
pub open spec fn file_table_bytes(entries: Seq<(Seq<char>, u64)>) -> Seq<u8> {
    le_bytes(entries.len(), 8) + rows_bytes(entries)
}

/// The result of reading `count` position rows at `cursor` into `entries`: the entries and the cursor after the rows,
/// or nothing when a name is not UTF-8.
pub open spec fn rows_parse(data: Seq<u8>, cursor: nat, count: nat, entries: Seq<(Seq<char>, u64)>) -> Option<
    (Seq<(Seq<char>, u64)>, nat),
>
    decreases count,
{
    if count == 0 {
        Some((entries, cursor))
    } else {
        let (length, header) = vlq_at(data, cursor);
        let body = advance(data.len(), cursor, header);
        let name = window(data, body, length);
        let after_name = advance(data.len(), body, length);
        if !vstd::utf8::valid_utf8(name) {
            None
        } else {
            let position = le_value(window(data, after_name, 8));
            rows_parse(
                data,
                advance(data.len(), after_name, 8),
                (count - 1) as nat,
                set_position(entries, vstd::utf8::decode_utf8(name), position as u64),
            )
        }
    }
}

/// Maps file names to positions in a carton, in the order the names were first added.
#[derive(Debug)]
pub struct PositionMap {
    entries: Vec<(String, u64)>,
}

impl PositionMap {
    /// The entries, as (name, position) pairs.
    pub closed spec fn entries(&self) -> Seq<(Seq<char>, u64)> {
        self.entries@.map_values(|entry: (String, u64)| (entry.0@, entry.1))
    }

    /// The map from names to positions.
    pub open spec fn map(&self) -> Map<Seq<char>, u64> {
        entries_map(self.entries())
    }

    pub open spec fn wf(&self) -> bool {
        distinct_keys(self.entries())
    }

    pub fn new() -> (positions: Self)
        ensures
            positions.wf(),
            positions.entries() == Seq::<(Seq<char>, u64)>::empty(),
    {
        let positions = PositionMap { entries: Vec::new() };
        proof {
            assert(positions.entries() =~= Seq::<(Seq<char>, u64)>::empty());
        }
        positions
    }

    /// How many names the map holds.
    pub fn len(&self) -> (count: usize)
        ensures
            count == self.entries().len(),
    {
        self.entries.len()
    }

    /// The entry at `index`.
    pub fn entry(&self, index: usize) -> (entry: (&String, u64))
        requires
            index < self.entries().len(),
        ensures
            (entry.0@, entry.1) == self.entries()[index as int],
    {
        (&self.entries[index].0, self.entries[index].1)
    }

    fn find(&self, name: &str) -> (index: Option<usize>)
        ensures
            index matches Some(i) ==> i < self.entries().len() && self.entries()[i as int].0 == name@,
            index is None ==> forall|i: int| 0 <= i < self.entries().len() ==> self.entries()[i].0 != name@,
    {
        let key = name.to_owned();
        for i in 0..self.entries.len()
            invariant
                key@ == name@,
                forall|j: int| 0 <= j < i ==> self.entries()[j].0 != name@,
        {
            if self.entries[i].0 == key {
                return Some(i);
            }
        }
        None
    }

    /// The position for a name, if the map has one.
    pub fn get(&self, name: &str) -> (position: Option<u64>)
        requires
            self.wf(),
        ensures
            position == (if self.map().dom().contains(name@) {
                Some(self.map()[name@])
            } else {
                None::<u64>
            }),
    {
        match self.find(name) {
            Some(i) => {
                proof {
                    lemma_entries_map_get(self.entries(), i as int);
                }
                Some(self.entries[i].1)
            },
            None => {
                proof {
                    lemma_entries_map_dom(self.entries());
                }
                None
            },
        }
    }

    /// Sets the position for a name; a new name goes last.
    pub fn insert(&mut self, name: &str, position: u64)
        requires
            old(self).wf(),
        ensures
            final(self).wf(),
            final(self).map() == old(self).map().insert(name@, position),
            final(self).entries() == set_position(old(self).entries(), name@, position),
    {
        proof {
            lemma_entries_map_dom(self.entries());
        }
        match self.find(name) {
            Some(i) => {
                proof {
                    lemma_entries_map_update(self.entries(), i as int, position);
                    let chosen = choose|k: int| 0 <= k < self.entries().len() && self.entries()[k].0 == name@;
                    if chosen != i {
                        if chosen < i {
                            assert(self.entries()[chosen].0 != self.entries()[i as int].0);
                        } else {
                            assert(self.entries()[i as int].0 != self.entries()[chosen].0);
                        }
                    }
                }
                let ghost before = self.entries();
                self.entries.set(i, (name.to_owned(), position));
                proof {
                    assert(self.entries() =~= before.update(i as int, (before[i as int].0, position)));
                }
            },
            None => {
                proof {
                    lemma_entries_map_push(self.entries(), name@, position);
                }
                let ghost before = self.entries();
                self.entries.push((name.to_owned(), position));
                proof {
                    assert(self.entries() =~= before.push((name@, position)));
                }
            },
        }
    }
}

/// Maps files to their absolute positions within the carton.
#[derive(Debug)]
pub struct FileTable {
    /// List of files.
    files: Vec<File>,
    /// Where the file metadata is located. File metadata is positioned before file contents.
    metadata_positions: PositionMap,
    /// Where the file data begins. Represents byte 0 of the file.
    file_positions: PositionMap,
}

impl FileTable {
    pub closed spec fn files_spec(&self) -> Seq<File> {
        self.files@
    }

    pub closed spec fn metadata_positions_spec(&self) -> PositionMap {
        self.metadata_positions
    }

    pub closed spec fn file_positions_spec(&self) -> PositionMap {
        self.file_positions
    }

    pub open spec fn wf(&self) -> bool {
        self.metadata_positions_spec().wf() && self.file_positions_spec().wf()
    }

    pub fn new() -> (table: Self)
        ensures
            table.wf(),
            table.files_spec() == Seq::<File>::empty(),
            table.metadata_positions_spec().entries() == Seq::<(Seq<char>, u64)>::empty(),
            table.file_positions_spec().entries() == Seq::<(Seq<char>, u64)>::empty(),
    {
        FileTable { files: Vec::new(), metadata_positions: PositionMap::new(), file_positions: PositionMap::new() }
    }

    /// Adds a standalone file from disk.
    pub fn add_from_disk(&mut self, file: File)
        ensures
            final(self).files_spec() == old(self).files_spec().push(file),
            final(self).metadata_positions_spec() == old(self).metadata_positions_spec(),
            final(self).file_positions_spec() == old(self).file_positions_spec(),
    {
        self.files.push(file);
    }

    /// Adds a standalone file from the intermediate decode.
    pub fn add_from_intermediate(&mut self, file: File)
        ensures
            final(self).files_spec() == old(self).files_spec().push(file),
            final(self).metadata_positions_spec() == old(self).metadata_positions_spec(),
            final(self).file_positions_spec() == old(self).file_positions_spec(),
    {
        self.files.push(file);
    }

    /// Add a file's metadata position into the table during the decode process.
    pub fn add_position_from_decode(&mut self, file_name: &str, metadata_position: u64)
        requires
            old(self).wf(),
        ensures
            final(self).wf(),
            final(self).files_spec() == old(self).files_spec(),
            final(self).metadata_positions_spec().map() == old(self).metadata_positions_spec().map().insert(
                file_name@,
                metadata_position,
            ),
            final(self).metadata_positions_spec().entries() == set_position(
                old(self).metadata_positions_spec().entries(),
                file_name@,
                metadata_position,
            ),
            final(self).file_positions_spec() == old(self).file_positions_spec(),
    {
        self.metadata_positions.insert(file_name, metadata_position);
    }

    /// Update the file's metadata position and absolute file position.
    pub fn update_position(&mut self, file_name: &str, metadata_position: u64, file_position: u64)
        requires
            old(self).wf(),
        ensures
            final(self).wf(),
            final(self).files_spec() == old(self).files_spec(),
            final(self).metadata_positions_spec().map() == old(self).metadata_positions_spec().map().insert(
                file_name@,
                metadata_position,
            ),
            final(self).file_positions_spec().map() == old(self).file_positions_spec().map().insert(
                file_name@,
                file_position,
            ),
            final(self).metadata_positions_spec().entries() == set_position(
                old(self).metadata_positions_spec().entries(),
                file_name@,
                metadata_position,
            ),
            final(self).file_positions_spec().entries() == set_position(
                old(self).file_positions_spec().entries(),
                file_name@,
                file_position,
            ),
    {
        self.metadata_positions.insert(file_name, metadata_position);
        self.file_positions.insert(file_name, file_position);
    }

    /// Takes the files out of the table, leaving it without files.
    pub fn take_files(&mut self) -> (files: Vec<File>)
        ensures
            files@ == old(self).files_spec(),
            final(self).files_spec() == Seq::<File>::empty(),
            final(self).metadata_positions_spec() == old(self).metadata_positions_spec(),
            final(self).file_positions_spec() == old(self).file_positions_spec(),
    {
        let mut files = Vec::new();
        std::mem::swap(&mut files, &mut self.files);
        files
    }

    /// Puts files into the table in place of the files it holds.
    pub fn put_files(&mut self, files: Vec<File>)
        ensures
            final(self).files_spec() == files@,
            final(self).metadata_positions_spec() == old(self).metadata_positions_spec(),
            final(self).file_positions_spec() == old(self).file_positions_spec(),
    {
        self.files = files;
    }

    /// Get the list of files the table keeps track of.
    pub fn get_files(&self) -> (files: &Vec<File>)
        ensures
            files@ == self.files_spec(),
    {
        &self.files
    }

    /// Writes the file table: the count of metadata positions, then each file name and metadata position.
    pub fn encode(&self, vector: &mut Vec<u8>)
        ensures
            final(vector)@ == old(vector)@ + file_table_bytes(self.metadata_positions_spec().entries()),
    {
        let ghost entries = self.metadata_positions.entries();
        write_u64(self.metadata_positions.len() as u64, vector);
        let ghost start = vector@;
        let count = self.metadata_positions.len();
        for i in 0..count
            invariant
                entries == self.metadata_positions_spec().entries(),
                count == entries.len(),
                vector@ == start + rows_bytes(entries.take(i as int)),
        {
            let (file_name, position) = self.metadata_positions.entry(i);
            write_utf8_string(file_name.as_str(), vector);
            write_u64(position, vector);
            proof {
                assert(entries.take(i + 1).drop_last() =~= entries.take(i as int));
                assert(vector@ =~= start + rows_bytes(entries.take(i + 1)));
            }
        }
        proof {
            assert(entries.take(entries.len() as int) =~= entries);
            assert(vector@ =~= old(vector)@ + file_table_bytes(entries));
        }
    }

    /// Reads a file table: the row count, then each row's file name and metadata position.
    pub fn decode(stream: &mut FileReadStream) -> (result: Result<(FileTable, StreamPosition), CartonError>)
        ensures
            final(stream).data() == old(stream).data(),
            ({
                let data = old(stream).data();
                let count = le_value(window(data, old(stream).cursor(), 8));
                let rows_start = advance(data.len(), old(stream).cursor(), 8);
                match rows_parse(data, rows_start, count, Seq::empty()) {
                    Some((entries, end)) => result matches Ok((table, position)) && table.wf()
                        && table.metadata_positions_spec().entries() == entries && table.files_spec() == Seq::<
                        File,
                    >::empty() && table.file_positions_spec().entries() == Seq::<(Seq<char>, u64)>::empty()
                        && final(stream).cursor() == end && position == end,
                    None => result matches Err(CartonError::FromUtf8(_)),
                }
            }),
    {
        let mut table = FileTable::new();
        let ghost data = stream.data();
        let (row_count, _) = stream.read_u64();
        let ghost rows_start = stream.cursor();
        let mut i: u64 = 0;
        while i < row_count
            invariant
                stream.data() == data,
                data == old(stream).data(),
                row_count as nat == le_value(window(data, old(stream).cursor(), 8)),
                rows_start == advance(data.len(), old(stream).cursor(), 8),
                table.wf(),
                table.files_spec() == Seq::<File>::empty(),
                table.file_positions_spec().entries() == Seq::<(Seq<char>, u64)>::empty(),
                i <= row_count,
                rows_parse(data, rows_start, row_count as nat, Seq::empty()) == rows_parse(
                    data,
                    stream.cursor(),
                    (row_count - i) as nat,
                    table.metadata_positions_spec().entries(),
                ),
            decreases row_count - i,
        {
            let ghost here = stream.cursor();
            let (file_name, _) = match stream.read_string() {
                Ok(pair) => pair,
                Err(error) => {
                    proof {
                        let (length, header) = vlq_at(data, here);
                        let body = advance(data.len(), here, header);
                        assert(!vstd::utf8::valid_utf8(window(data, body, length)));
                        assert(rows_parse(data, here, (row_count - i) as nat, table.metadata_positions_spec().entries()) is None);
                    }
                    return Err(error);
                },
            };
            let (file_position, _) = stream.read_u64();
            table.add_position_from_decode(file_name.as_str(), file_position);
            i = i + 1;
        }
        let position = stream.get_position();
        Ok((table, position))
    }

    /// Get a reference for file metadata positions.
    pub fn get_metadata_positions(&self) -> (positions: &PositionMap)
        ensures
            *positions == self.metadata_positions_spec(),
    {
        &self.metadata_positions
    }

    /// Get a reference for file positions.
    pub fn get_file_positions(&self) -> (positions: &PositionMap)
        ensures
            *positions == self.file_positions_spec(),
    {
        &self.file_positions
    }
}

/// Reading rows never moves the cursor backwards.
pub proof fn lemma_rows_parse_forward(data: Seq<u8>, cursor: nat, count: nat, entries: Seq<(Seq<char>, u64)>)
    ensures
        rows_parse(data, cursor, count, entries) matches Some((_, end)) ==> end >= cursor,
    decreases count,
{
    if count > 0 {
        let (length, header) = vlq_at(data, cursor);
        let body = advance(data.len(), cursor, header);
        let name = window(data, body, length);
        let after_name = advance(data.len(), body, length);
        if vstd::utf8::valid_utf8(name) {
            let position = le_value(window(data, after_name, 8));
            lemma_rows_parse_forward(
                data,
                advance(data.len(), after_name, 8),
                (count - 1) as nat,
                set_position(entries, vstd::utf8::decode_utf8(name), position as u64),
            );
        }
    }
}

/// The rows of the first `j` entries are written before the rows of the others.
proof fn lemma_rows_bytes_prefix(entries: Seq<(Seq<char>, u64)>, j: int)
    requires
        0 <= j <= entries.len(),
    ensures
        rows_bytes(entries.take(j)).len() <= rows_bytes(entries).len(),
        rows_bytes(entries).take(rows_bytes(entries.take(j)).len() as int) == rows_bytes(entries.take(j)),
    decreases entries.len(),
{
    if j == entries.len() {
        assert(entries.take(j) =~= entries);
        assert(rows_bytes(entries).take(rows_bytes(entries).len() as int) =~= rows_bytes(entries));
    } else {
        let init = entries.drop_last();
        assert(entries.take(j) =~= init.take(j));
        lemma_rows_bytes_prefix(init, j);
        let before = rows_bytes(init.take(j));
        assert(rows_bytes(entries).take(before.len() as int) =~= rows_bytes(init).take(before.len() as int));
    }
}

/// Whether every name of the entries is shorter than `2^60` bytes in UTF-8, as the row encoding needs.
pub open spec fn short_names(entries: Seq<(Seq<char>, u64)>) -> bool {
    forall|i: int| 0 <= i < entries.len() ==> vstd::utf8::encode_utf8(#[trigger] entries[i].0).len() < vlq_max()
}

/// Reading the rows from the `j`th on, into the first `j` entries, gives back all the entries.
#[verifier::spinoff_prover]
#[verifier::rlimit(50)]
proof fn lemma_rows_roundtrip_from(data: Seq<u8>, cursor: nat, entries: Seq<(Seq<char>, u64)>, j: int)
    requires
        0 <= j <= entries.len(),
        distinct_keys(entries),
        short_names(entries),
        cursor + rows_bytes(entries).len() <= data.len(),
        data.subrange(cursor as int, (cursor + rows_bytes(entries).len()) as int) == rows_bytes(entries),
    ensures
        rows_parse(data, cursor + rows_bytes(entries.take(j)).len(), (entries.len() - j) as nat, entries.take(j))
            == Some((entries, cursor + rows_bytes(entries).len())),
    decreases entries.len() - j,
{
    let whole = rows_bytes(entries);
    if j == entries.len() {
        assert(entries.take(j) =~= entries);
    } else {
        let entry = entries[j];
        let next = entries.take(j + 1);
        let before = rows_bytes(entries.take(j));
        let name = utf8_string_bytes(entry.0);
        let number = le_bytes(entry.1 as nat, 8);
        assert(next.drop_last() =~= entries.take(j));
        assert(rows_bytes(next) == before + name + number);
        lemma_rows_bytes_prefix(entries, j + 1);
        super::stream::lemma_le_bytes_len(entry.1 as nat, 8);
        let c = cursor + before.len();
        let after_name = c + name.len();
        assert forall|i: int| 0 <= i < rows_bytes(next).len() implies data[cursor + i] == #[trigger] rows_bytes(
            next,
        )[i] by {
            assert(data.subrange(cursor as int, (cursor + whole.len()) as int)[i] == whole[i]);
            assert(whole.take(rows_bytes(next).len() as int)[i] == whole[i]);
        }
        assert(data.subrange(c as int, (c + name.len()) as int) =~= name) by {
            assert forall|i: int| 0 <= i < name.len() implies data[c + i] == name[i] by {
                assert(rows_bytes(next)[before.len() + i] == name[i]);
            }
        }
        utf8_string_roundtrip(data, c, entry.0);
        lemma_window_inside(data, after_name, 8);
        assert(data.subrange(after_name as int, (after_name + 8) as int) =~= number) by {
            assert forall|i: int| 0 <= i < 8 implies data[after_name + i] == number[i] by {
                assert(rows_bytes(next)[before.len() + name.len() + i] == number[i]);
            }
        }
        super::stream::lemma_le_value_of_bytes(entry.1 as nat, 8);
        super::stream::lemma_byte_pow_8();
        vstd::arithmetic::div_mod::lemma_small_mod(entry.1 as nat, super::stream::byte_pow(8));
        assert(!(exists|i: int| 0 <= i < entries.take(j).len() && entries.take(j)[i].0 == entry.0)) by {
            assert forall|i: int| 0 <= i < entries.take(j).len() implies entries.take(j)[i].0 != entry.0 by {
                assert(entries[i].0 != entries[j].0);
            }
        }
        assert(set_position(entries.take(j), entry.0, entry.1) =~= next);
        lemma_rows_roundtrip_from(data, cursor, entries, j + 1);
    }
}

/// Reading a file table where one was written gives back its rows, in order, and ends right after the table: for rows
/// with distinct names, each shorter than `2^60` bytes.
pub proof fn file_table_roundtrip(data: Seq<u8>, cursor: nat, entries: Seq<(Seq<char>, u64)>)
    requires
        distinct_keys(entries),
        short_names(entries),
        entries.len() <= u64::MAX,
        cursor + file_table_bytes(entries).len() <= data.len(),
        data.subrange(cursor as int, (cursor + file_table_bytes(entries).len()) as int) == file_table_bytes(entries),
    ensures
        le_value(window(data, cursor, 8)) == entries.len(),
        rows_parse(data, advance(data.len(), cursor, 8), entries.len(), Seq::empty()) == Some(
            (entries, cursor + file_table_bytes(entries).len()),
        ),
{
    let table = file_table_bytes(entries);
    let count = le_bytes(entries.len(), 8);
    let rows = rows_bytes(entries);
    super::stream::lemma_le_bytes_len(entries.len(), 8);
    lemma_window_inside(data, cursor, 8);
    assert(data.subrange(cursor as int, (cursor + 8) as int) =~= count) by {
        assert forall|i: int| 0 <= i < 8 implies data[cursor + i] == count[i] by {
            assert(data.subrange(cursor as int, (cursor + table.len()) as int)[i] == table[i]);
        }
    }
    super::stream::lemma_le_value_of_bytes(entries.len(), 8);
    super::stream::lemma_byte_pow_8();
    vstd::arithmetic::div_mod::lemma_small_mod(entries.len(), super::stream::byte_pow(8));
    assert(data.subrange((cursor + 8) as int, (cursor + 8 + rows.len()) as int) =~= rows) by {
        assert forall|i: int| 0 <= i < rows.len() implies data[cursor + 8 + i] == rows[i] by {
            assert(data.subrange(cursor as int, (cursor + table.len()) as int)[8 + i] == table[8 + i]);
        }
    }
    assert(entries.take(0) =~= Seq::<(Seq<char>, u64)>::empty());
    lemma_rows_roundtrip_from(data, cursor + 8, entries, 0);
}

} // verus!
