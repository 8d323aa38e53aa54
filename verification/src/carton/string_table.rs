use vstd::prelude::*;

use super::stream::{
    Decode, Encode, byte_pow, integer_roundtrip, le_bytes, le_value, string_chars, string_end, string_readable,
    lemma_byte_pow_8, string_roundtrip, vlq_max,
};
use super::error::CartonError;
use super::file_stream::{
    advance, lemma_window_inside, utf8_string_bytes, utf8_string_roundtrip, vlq_at, window, write_utf8_string,
    FileReadStream, StreamPosition,
};
use super::stream::writing::string_bytes;
use super::stream::reading::{read_string, read_u64};
use super::stream::writing::{write_string, write_u64};

verus! {

/// Data structure that stores all strings used in a carton. Any strings outside of the string table are meant to be
/// referenced using their corresponding string table ID. String table IDs are within the range `0..2**60`.
///
/// Strings can have a length within a range `0..2**60`.
///
/// String table IDs are written using a variable length format with a 2 byte granularity.
#[derive(Debug)]
pub struct StringTable {
    /// String to ID, one entry per distinct string.
    mapping: Vec<(String, u64)>,
    /// ID to string; the IDs are the positions `0..len`.
    sorted_mapping: Vec<String>,
}

/// What a string table holds: the map from strings to IDs, and the strings in ID order.
pub struct StringTableView {
    pub mapping: Map<Seq<char>, u64>,
    pub strings: Seq<Seq<char>>,
}

/// The table after `insert` of `string`: the string maps to the count of strings mapped so far, and that ID names it.
pub open spec fn insert_spec(table: StringTableView, string: Seq<char>) -> StringTableView {
    let index = table.mapping.dom().len();
    StringTableView {
        mapping: table.mapping.insert(string, index as u64),
        strings: if index == table.strings.len() {
            table.strings.push(string)
        } else {
            table.strings.update(index as int, string)
        },
    }
}

/// The table that inserting `strings` in order into an empty table builds.
pub open spec fn table_of(strings: Seq<Seq<char>>) -> StringTableView
    decreases strings.len(),
{
    if strings.len() == 0 {
        StringTableView { mapping: Map::empty(), strings: Seq::empty() }
    } else {
        insert_spec(table_of(strings.drop_last()), strings.last())
    }
}

/// The bytes of a list of length-prefixed strings, in order.
pub open spec fn strings_bytes(strings: Seq<Seq<char>>) -> Seq<u8>
    decreases strings.len(),
{
    if strings.len() == 0 {
        Seq::empty()
    } else {
        strings_bytes(strings.drop_last()) + string_bytes(strings.last())
    }
}

/// Whether `count` length-prefixed strings can be read one after another from the front of `s`.
pub open spec fn strings_readable(s: Seq<u8>, count: nat) -> bool
    decreases count,
{
    count == 0 || (string_readable(s) && strings_readable(s.skip(string_end(s)), (count - 1) as nat))
}

/// The `count` strings read one after another from the front of `s`.
pub open spec fn strings_decode(s: Seq<u8>, count: nat) -> Seq<Seq<char>>
    decreases count,
{
    if count == 0 {
        Seq::empty()
    } else {
        seq![string_chars(s)] + strings_decode(s.skip(string_end(s)), (count - 1) as nat)
    }
}

/// The position just after `count` strings read one after another from the front of `s`.
pub open spec fn strings_end(s: Seq<u8>, count: nat) -> int
    decreases count,
{
    if count == 0 {
        0
    } else {
        string_end(s) + strings_end(s.skip(string_end(s)), (count - 1) as nat)
    }
}

/// The bytes of an encoded string table: the count of strings in 8 bytes, then the strings in ID order.
pub open spec fn table_bytes(table: StringTableView) -> Seq<u8> {
    le_bytes(table.strings.len(), 8) + strings_bytes(table.strings)
}

/// The map that a list of (key, value) entries denotes, later entries winning.
pub open spec fn entries_map(entries: Seq<(Seq<char>, u64)>) -> Map<Seq<char>, u64>
    decreases entries.len(),
{
    if entries.len() == 0 {
        Map::empty()
    } else {
        entries_map(entries.drop_last()).insert(entries.last().0, entries.last().1)
    }
}

/// No key occurs twice in the entries.
pub open spec fn distinct_keys(entries: Seq<(Seq<char>, u64)>) -> bool {
    forall|i: int, j: int| 0 <= i < j < entries.len() ==> #[trigger] entries[i].0 != #[trigger] entries[j].0
}

proof fn lemma_entries_map_dom(entries: Seq<(Seq<char>, u64)>)
    ensures
        entries_map(entries).dom() =~= Set::new(|k: Seq<char>| exists|i: int| 0 <= i < entries.len() && entries[i].0 == k),
        entries_map(entries).dom().finite(),
    decreases entries.len(),
{
    if entries.len() > 0 {
        let init = entries.drop_last();
        lemma_entries_map_dom(init);
        assert forall|k: Seq<char>| (exists|i: int| 0 <= i < entries.len() && entries[i].0 == k) <==> (
        entries_map(init).dom().contains(k) || k == entries.last().0) by {
            if exists|i: int| 0 <= i < entries.len() && entries[i].0 == k {
                let i = choose|i: int| 0 <= i < entries.len() && entries[i].0 == k;
                if i < entries.len() - 1 {
                    assert(init[i].0 == k);
                }
            }
            if entries_map(init).dom().contains(k) {
                let i = choose|i: int| 0 <= i < init.len() && init[i].0 == k;
                assert(entries[i].0 == k);
            }
        }
    }
}

proof fn lemma_entries_map_len(entries: Seq<(Seq<char>, u64)>)
    requires
        distinct_keys(entries),
    ensures
        entries_map(entries).dom().len() == entries.len(),
    decreases entries.len(),
{
    if entries.len() > 0 {
        let init = entries.drop_last();
        assert(distinct_keys(init)) by {
            assert forall|i: int, j: int| 0 <= i < j < init.len() implies init[i].0 != init[j].0 by {
                assert(entries[i].0 != entries[j].0);
            }
        }
        lemma_entries_map_len(init);
        lemma_entries_map_dom(init);
        assert(!entries_map(init).dom().contains(entries.last().0)) by {
            if entries_map(init).dom().contains(entries.last().0) {
                let i = choose|i: int| 0 <= i < init.len() && init[i].0 == entries.last().0;
                assert(entries[i].0 == entries[entries.len() - 1].0);
            }
        }
    }
}

proof fn lemma_entries_map_get(entries: Seq<(Seq<char>, u64)>, i: int)
    requires
        distinct_keys(entries),
        0 <= i < entries.len(),
    ensures
        entries_map(entries).dom().contains(entries[i].0),
        entries_map(entries)[entries[i].0] == entries[i].1,
    decreases entries.len(),
{
    let init = entries.drop_last();
    if i < entries.len() - 1 {
        assert(distinct_keys(init)) by {
            assert forall|a: int, b: int| 0 <= a < b < init.len() implies init[a].0 != init[b].0 by {
                assert(entries[a].0 != entries[b].0);
            }
        }
        lemma_entries_map_get(init, i);
        assert(entries[i].0 != entries.last().0);
        assert(init[i] == entries[i]);
    }
}

proof fn lemma_entries_map_update(entries: Seq<(Seq<char>, u64)>, i: int, value: u64)
    requires
        distinct_keys(entries),
        0 <= i < entries.len(),
    ensures
        entries_map(entries.update(i, (entries[i].0, value))) =~= entries_map(entries).insert(entries[i].0, value),
        distinct_keys(entries.update(i, (entries[i].0, value))),
    decreases entries.len(),
{
    let updated = entries.update(i, (entries[i].0, value));
    let init = entries.drop_last();
    assert(distinct_keys(init)) by {
        assert forall|a: int, b: int| 0 <= a < b < init.len() implies init[a].0 != init[b].0 by {
            assert(entries[a].0 != entries[b].0);
        }
    }
    if i < entries.len() - 1 {
        lemma_entries_map_update(init, i, value);
        assert(updated.drop_last() =~= init.update(i, (init[i].0, value)));
        assert(entries[i].0 != entries.last().0);
    } else {
        assert(updated.drop_last() =~= init);
    }
    assert forall|a: int, b: int| 0 <= a < b < updated.len() implies updated[a].0 != updated[b].0 by {
        assert(entries[a].0 != entries[b].0);
    }
}

/// The strings that a list of entries maps are finitely many.
proof fn lemma_entries_map_finite(entries: Seq<(Seq<char>, u64)>)
    ensures
        entries_map(entries).dom().finite(),
    decreases entries.len(),
{
    if entries.len() > 0 {
        lemma_entries_map_finite(entries.drop_last());
    }
}

proof fn lemma_entries_map_absent(entries: Seq<(Seq<char>, u64)>, key: Seq<char>)
    requires
        forall|i: int| 0 <= i < entries.len() ==> entries[i].0 != key,
    ensures
        !entries_map(entries).dom().contains(key),
{
    lemma_entries_map_dom(entries);
}

/// Every string is ASCII and short enough for the length prefix.
pub open spec fn encodable_strings(strings: Seq<Seq<char>>) -> bool {
    forall|i: int|
        0 <= i < strings.len() ==> vstd::utf8::is_ascii_chars(#[trigger] strings[i]) && strings[i].len()
            < vlq_max() && strings[i].len() <= usize::MAX
}

proof fn lemma_strings_bytes_front(strings: Seq<Seq<char>>)
    requires
        strings.len() > 0,
    ensures
        strings_bytes(strings) =~= string_bytes(strings[0]) + strings_bytes(strings.drop_first()),
    decreases strings.len(),
{
    if strings.len() > 1 {
        lemma_strings_bytes_front(strings.drop_last());
        assert(strings.drop_last().drop_first() =~= strings.drop_first().drop_last());
        assert(strings.drop_last()[0] == strings[0]);
    } else {
        assert(strings.drop_first() =~= Seq::<Seq<char>>::empty());
        assert(strings.drop_last() =~= Seq::<Seq<char>>::empty());
    }
}

proof fn lemma_strings_roundtrip(strings: Seq<Seq<char>>, rest: Seq<u8>)
    requires
        encodable_strings(strings),
    ensures
        strings_readable(strings_bytes(strings) + rest, strings.len()),
        strings_decode(strings_bytes(strings) + rest, strings.len()) =~= strings,
        strings_end(strings_bytes(strings) + rest, strings.len()) == strings_bytes(strings).len(),
    decreases strings.len(),
{
    if strings.len() > 0 {
        lemma_strings_bytes_front(strings);
        let tail = strings.drop_first();
        let s = strings_bytes(strings) + rest;
        assert(s =~= string_bytes(strings[0]) + (strings_bytes(tail) + rest));
        string_roundtrip(strings[0], strings_bytes(tail) + rest);
        assert(encodable_strings(tail)) by {
            assert forall|i: int| 0 <= i < tail.len() implies vstd::utf8::is_ascii_chars(#[trigger] tail[i])
                && tail[i].len() < vlq_max() && tail[i].len() <= usize::MAX by {
                assert(tail[i] == strings[i + 1]);
            }
        }
        lemma_strings_roundtrip(tail, rest);
        let n = string_bytes(strings[0]).len();
        assert(string_end(s) == n) by {
            assert(s.skip(string_end(s)) == strings_bytes(tail) + rest);
            assert((strings_bytes(tail) + rest).len() == s.len() - n);
            assert(s.skip(string_end(s)).len() == s.len() - string_end(s));
        }
    }
}

proof fn lemma_table_of_distinct(strings: Seq<Seq<char>>)
    requires
        strings.no_duplicates(),
        strings.len() <= u64::MAX,
    ensures
        table_of(strings).strings == strings,
        table_of(strings).mapping.dom() =~= strings.to_set(),
        table_of(strings).mapping.dom().len() == strings.len(),
        forall|i: int| 0 <= i < strings.len() ==> table_of(strings).mapping[#[trigger] strings[i]] == i,
    decreases strings.len(),
{
    if strings.len() > 0 {
        let init = strings.drop_last();
        assert(init.no_duplicates());
        lemma_table_of_distinct(init);
        let last = strings.last();
        assert(!init.contains(last)) by {
            if init.contains(last) {
                let j = choose|j: int| 0 <= j < init.len() && init[j] == last;
                assert(strings[j] == strings[strings.len() - 1]);
            }
        }
        assert(!init.to_set().contains(last));
        assert(table_of(strings) == insert_spec(table_of(init), last));
        assert(table_of(strings).strings =~= strings);
        assert(strings.to_set() =~= init.to_set().insert(last)) by {
            assert forall|x: Seq<char>| strings.to_set().contains(x) <==> init.to_set().insert(last).contains(x) by {
                if strings.contains(x) {
                    let j = choose|j: int| 0 <= j < strings.len() && strings[j] == x;
                    if j < init.len() {
                        assert(init[j] == x);
                    }
                }
                if init.contains(x) {
                    let j = choose|j: int| 0 <= j < init.len() && init[j] == x;
                    assert(strings[j] == x);
                }
            }
        }
        init.lemma_cardinality_of_set();
        assert forall|i: int| 0 <= i < strings.len() implies table_of(strings).mapping[#[trigger] strings[i]] == i by {
            if i < init.len() {
                assert(init[i] == strings[i]);
                assert(strings[i] != last);
            }
        }
    }
}

/// In a table built by inserting distinct strings, the string with ID `i` has the ID `i`, and the strings that have
/// an ID are exactly the inserted ones.
pub proof fn string_table_lookups_agree(strings: Seq<Seq<char>>, i: int)
    requires
        strings.no_duplicates(),
        strings.len() <= u64::MAX,
        0 <= i < strings.len(),
    ensures
        table_of(strings).strings[i] == strings[i],
        table_of(strings).mapping.dom().contains(strings[i]),
        table_of(strings).mapping[table_of(strings).strings[i]] == i,
        table_of(strings).mapping.dom() == strings.to_set(),
{
    lemma_table_of_distinct(strings);
}

/// Decoding an encoded string table gives back the table, when it was built by inserting distinct ASCII strings
/// (each shorter than `2^60` characters), and leaves what followed.
pub proof fn string_table_roundtrip(strings: Seq<Seq<char>>, rest: Seq<u8>)
    requires
        strings.no_duplicates(),
        encodable_strings(strings),
        strings.len() <= u64::MAX,
    ensures
        StringTable::decodable(table_bytes(table_of(strings)) + rest),
        forall|table: StringTable, left: Seq<u8>|
            StringTable::decodes_to(table_bytes(table_of(strings)) + rest, table, left) ==> table.view()
                == table_of(strings) && left == rest,
{
    lemma_table_of_distinct(strings);
    lemma_byte_pow_8();
    let s = table_bytes(table_of(strings)) + rest;
    assert(s =~= le_bytes(strings.len(), 8) + (strings_bytes(strings) + rest));
    integer_roundtrip(strings.len(), 8, strings_bytes(strings) + rest);
    lemma_strings_roundtrip(strings, rest);
    assert(s.skip(8 + strings_bytes(strings).len() as int) =~= rest);
}

impl StringTable {
    closed spec fn entries(&self) -> Seq<(Seq<char>, u64)> {
        self.mapping@.map_values(|e: (String, u64)| (e.0@, e.1))
    }

    pub closed spec fn view(&self) -> StringTableView {
        StringTableView {
            mapping: entries_map(self.entries()),
            strings: self.sorted_mapping@.map_values(|s: String| s@),
        }
    }

    /// The internal invariant: one mapping entry per distinct string, and no more entries than strings.
    pub closed spec fn wf(&self) -> bool {
        &&& distinct_keys(self.entries())
        &&& self.mapping@.len() <= self.sorted_mapping@.len()
    }

    /// A well-formed table maps at most as many strings as it names by ID.
    pub proof fn lemma_sizes(&self)
        requires
            self.wf(),
        ensures
            self.view().mapping.dom().finite(),
            self.view().mapping.dom().len() <= self.view().strings.len(),
    {
        lemma_entries_map_len(self.entries());
        lemma_entries_map_finite(self.entries());
    }

    /// An empty table.
    pub fn new() -> (table: Self)
        ensures
            table.wf(),
            table.view() == table_of(Seq::empty()),
            table.view().mapping.dom().len() == 0,
            table.view().strings.len() == 0,
    {
        let table = StringTable { mapping: Vec::new(), sorted_mapping: Vec::new() };
        assert(table.entries() =~= Seq::empty());
        assert(table.view().strings =~= Seq::empty());
        table
    }

    /// Position of `string` in the mapping entries, if it has one.
    fn find(&self, string: &String) -> (position: Option<usize>)
        requires
            self.wf(),
        ensures
            match position {
                Some(i) => i < self.mapping@.len() && self.mapping@[i as int].0@ == string@,
                None => forall|i: int| 0 <= i < self.mapping@.len() ==> self.mapping@[i].0@ != string@,
            },
    {
        let mut i: usize = 0;
        while i < self.mapping.len()
            invariant
                i <= self.mapping@.len(),
                forall|j: int| 0 <= j < i ==> self.mapping@[j].0@ != string@,
            decreases self.mapping@.len() - i,
        {
            if self.mapping[i].0 == *string {
                return Some(i);
            }
            i = i + 1;
        }
        None
    }

    /// Insert a string into the string table. Duplicates cannot be inserted.
    pub fn insert(&mut self, string: &str) -> (index: u64)
        requires
            old(self).wf(),
        ensures
            final(self).wf(),
            final(self).view() == insert_spec(old(self).view(), string@),
            index == old(self).view().mapping.dom().len(),
            old(self).view().mapping.dom().contains(string@) ==> final(self).view().mapping.dom().len() == old(
                self,
            ).view().mapping.dom().len(),
            !old(self).view().mapping.dom().contains(string@) ==> final(self).view().mapping.dom().len() == old(
                self,
            ).view().mapping.dom().len() + 1,
            old(self).view().mapping.dom().len() == old(self).view().strings.len() ==> final(self).view().strings.len()
                == old(self).view().strings.len() + 1,
    {
        proof {
            lemma_entries_map_len(self.entries());
            lemma_entries_map_finite(self.entries());
        }
        let index = self.mapping.len() as u64;
        let key = string.to_owned();
        let position = self.find(&key);
        if index as usize == self.sorted_mapping.len() {
            self.sorted_mapping.push(string.to_owned());
        } else {
            self.sorted_mapping.set(index as usize, string.to_owned());
        }
        let ghost before = self.entries();
        match position {
            Some(i) => {
                self.mapping.set(i, (key, index));
                proof {
                    lemma_entries_map_update(before, i as int, index);
                    assert(self.entries() =~= before.update(i as int, (before[i as int].0, index)));
                }
            },
            None => {
                self.mapping.push((key, index));
                proof {
                    assert(self.entries() =~= before.push((string@, index)));
                    assert(self.entries().drop_last() =~= before);
                    assert forall|a: int, b: int| 0 <= a < b < self.entries().len() implies
                        self.entries()[a].0 != self.entries()[b].0 by {
                        if b < before.len() {
                            assert(before[a].0 != before[b].0);
                        }
                    }
                }
            },
        }
        proof {
            assert(self.view().strings =~= insert_spec(old(self).view(), string@).strings);
            let before_keys = old(self).view().mapping.dom();
            if before_keys.contains(string@) {
                assert(before_keys.insert(string@) =~= before_keys);
            }
        }
        index
    }

    /// Get a string's ID from the string table.
    pub fn get(&self, string: &str) -> (index: Option<u64>)
        requires
            self.wf(),
        ensures
            index == (if self.view().mapping.dom().contains(string@) {
                Some(self.view().mapping[string@])
            } else {
                None
            }),
    {
        let key = string.to_owned();
        if let Some(i) = self.find(&key) {
            proof {
                lemma_entries_map_get(self.entries(), i as int);
            }
            Some(self.mapping[i].1)
        } else {
            proof {
                lemma_entries_map_absent(self.entries(), string@);
            }
            None
        }
    }

    /// The number of strings that the table names.
    pub fn len(&self) -> (count: usize)
        ensures
            count == self.view().strings.len(),
    {
        self.sorted_mapping.len()
    }

    /// Get a string by ID from the string table
    pub fn get_from_index(&self, index: u64) -> (string: Option<&String>)
        ensures
            match string {
                Some(s) => index < self.view().strings.len() && s@ == self.view().strings[index as int],
                None => index >= self.view().strings.len(),
            },
    {
        if index < self.sorted_mapping.len() as u64 {
            Some(&self.sorted_mapping[index as usize])
        } else {
            None
        }
    }
}

impl Encode for StringTable {
    open spec fn encodable(&self) -> bool {
        true
    }

    closed spec fn encoding(&self) -> Seq<u8> {
        table_bytes(self.view())
    }

    fn encode(&self, vector: &mut Vec<u8>) {
        write_u64(self.sorted_mapping.len() as u64, vector);

        let ghost start = vector@;
        for i in 0..self.sorted_mapping.len()
            invariant
                vector@ == start + strings_bytes(self.view().strings.take(i as int)),
        {
            write_string(self.sorted_mapping[i].as_str(), vector);
            proof {
                let taken = self.view().strings.take(i + 1);
                assert(taken.drop_last() =~= self.view().strings.take(i as int));
                assert(taken.last() == self.sorted_mapping@[i as int]@);
            }
        }
        proof {
            assert(self.view().strings.take(self.sorted_mapping@.len() as int) =~= self.view().strings);
        }
    }
}

impl Decode for StringTable {
    open spec fn decodable(s: Seq<u8>) -> bool {
        s.len() >= 8 && strings_readable(s.skip(8), le_value(s.take(8)))
    }

    open spec fn decodes_to(s: Seq<u8>, value: Self, rest: Seq<u8>) -> bool {
        &&& value.wf()
        &&& value.view() == table_of(strings_decode(s.skip(8), le_value(s.take(8))))
        &&& rest == s.skip(8 + strings_end(s.skip(8), le_value(s.take(8))))
    }

    fn decode(vector: &[u8]) -> (result: (Self, &[u8])) {
        let ghost start = vector@;
        let mut table = StringTable::new();

        let (row_count, position) = read_u64(vector);
        let mut vector = position;
        let ghost body = vector@;
        let ghost mut decoded: Seq<Seq<char>> = Seq::empty();

        for i in 0..row_count
            invariant
                body == start.skip(8),
                row_count == le_value(start.take(8)),
                table.wf(),
                table.view() == table_of(decoded),
                decoded.len() == i,
                strings_readable(vector@, (row_count - i) as nat),
                decoded + strings_decode(vector@, (row_count - i) as nat) == strings_decode(body, row_count as nat),
                vector@.len() <= body.len(),
                body.len() - vector@.len() + strings_end(vector@, (row_count - i) as nat) == strings_end(
                    body,
                    row_count as nat,
                ),
                vector@ == body.skip(body.len() - vector@.len()),
        {
            let ghost before = vector@;
            let (string, new_position) = read_string(vector);
            vector = new_position;
            table.insert(string.as_str());
            proof {
                let left = (row_count - i) as nat;
                assert(strings_decode(before, left) =~= seq![string@] + strings_decode(vector@, (left - 1) as nat));
                assert(decoded.push(string@).drop_last() =~= decoded);
                assert(decoded.push(string@).last() == string@);
                assert(table_of(decoded.push(string@)) == insert_spec(table_of(decoded), string@));
                decoded = decoded.push(string@);
                assert(vector@ =~= body.skip(body.len() - vector@.len()));
            }
        }
        proof {
            assert(decoded + strings_decode(vector@, 0) =~= decoded);
            assert(strings_end(vector@, 0) == 0);
            assert(vector@ =~= start.skip(8 + strings_end(body, row_count as nat)));
        }
        (table, vector)
    }
}

/// The bytes of the strings of a string table in a carton file: each as a UTF-8 string.
pub open spec fn utf8_strings_bytes(strings: Seq<Seq<char>>) -> Seq<u8>
    decreases strings.len(),
{
    if strings.len() == 0 {
        Seq::empty()
    } else {
        utf8_strings_bytes(strings.drop_last()) + utf8_string_bytes(strings.last())
    }
}

/// The bytes of a string table in a carton file: its string count in 8 bytes, then its strings.
pub open spec fn archive_table_bytes(table: StringTableView) -> Seq<u8> {
    le_bytes(table.strings.len(), 8) + utf8_strings_bytes(table.strings)
}

/// The result of reading `count` UTF-8 strings at `cursor` and inserting them into `table`: the table and the cursor
/// after the strings, or nothing when a string is not UTF-8.
pub open spec fn archive_strings_parse(data: Seq<u8>, cursor: nat, count: nat, table: StringTableView) -> Option<
    (StringTableView, nat),
>
    decreases count,
{
    if count == 0 {
        Some((table, cursor))
    } else {
        let (length, header) = vlq_at(data, cursor);
        let body = advance(data.len(), cursor, header);
        let bytes = window(data, body, length);
        if !vstd::utf8::valid_utf8(bytes) {
            None
        } else {
            archive_strings_parse(
                data,
                advance(data.len(), body, length),
                (count - 1) as nat,
                insert_spec(table, vstd::utf8::decode_utf8(bytes)),
            )
        }
    }
}

impl StringTable {
    /// Writes the table into a carton file: the string count, then each string in ID order as UTF-8.
    pub fn encode_archive(&self, vector: &mut Vec<u8>)
        ensures
            final(vector)@ == old(vector)@ + archive_table_bytes(self.view()),
    {
        write_u64(self.sorted_mapping.len() as u64, vector);

        let ghost start = vector@;
        for i in 0..self.sorted_mapping.len()
            invariant
                vector@ == start + utf8_strings_bytes(self.view().strings.take(i as int)),
        {
            write_utf8_string(self.sorted_mapping[i].as_str(), vector);
            proof {
                let taken = self.view().strings.take(i + 1);
                assert(taken.drop_last() =~= self.view().strings.take(i as int));
                assert(taken.last() == self.sorted_mapping@[i as int]@);
            }
        }
        proof {
            assert(self.view().strings.take(self.sorted_mapping@.len() as int) =~= self.view().strings);
            assert(final(vector)@ =~= old(vector)@ + archive_table_bytes(self.view()));
        }
    }

    /// Reads a table from a carton file: the string count, then each string, inserted in order.
    pub fn decode_archive(stream: &mut FileReadStream) -> (result: Result<(StringTable, StreamPosition), CartonError>)
        ensures
            final(stream).data() == old(stream).data(),
            ({
                let data = old(stream).data();
                let count = le_value(window(data, old(stream).cursor(), 8));
                let strings_start = advance(data.len(), old(stream).cursor(), 8);
                match archive_strings_parse(data, strings_start, count, table_of(Seq::empty())) {
                    Some((table, end)) => result matches Ok((decoded, position)) && decoded.wf() && decoded.view()
                        == table && final(stream).cursor() == end && position == end,
                    None => result matches Err(CartonError::FromUtf8(_)),
                }
            }),
    {
        let mut table = StringTable::new();
        let ghost data = stream.data();
        let (row_count, _) = stream.read_u64();
        let ghost strings_start = stream.cursor();
        let mut i: u64 = 0;
        while i < row_count
            invariant
                stream.data() == data,
                data == old(stream).data(),
                row_count as nat == le_value(window(data, old(stream).cursor(), 8)),
                strings_start == advance(data.len(), old(stream).cursor(), 8),
                table.wf(),
                i <= row_count,
                archive_strings_parse(data, strings_start, row_count as nat, table_of(Seq::empty()))
                    == archive_strings_parse(data, stream.cursor(), (row_count - i) as nat, table.view()),
            decreases row_count - i,
        {
            let ghost here = stream.cursor();
            let (string, _) = match stream.read_string() {
                Ok(pair) => pair,
                Err(error) => {
                    proof {
                        let (length, header) = vlq_at(data, here);
                        let body = advance(data.len(), here, header);
                        assert(!vstd::utf8::valid_utf8(window(data, body, length)));
                    }
                    return Err(error);
                },
            };
            table.insert(string.as_str());
            i = i + 1;
        }
        let position = stream.get_position();
        Ok((table, position))
    }
}

/// Reading strings never moves the cursor backwards.
pub proof fn lemma_archive_strings_parse_forward(data: Seq<u8>, cursor: nat, count: nat, table: StringTableView)
    ensures
        archive_strings_parse(data, cursor, count, table) matches Some((_, end)) ==> end >= cursor,
    decreases count,
{
    if count > 0 {
        let (length, header) = vlq_at(data, cursor);
        let body = advance(data.len(), cursor, header);
        let bytes = window(data, body, length);
        if vstd::utf8::valid_utf8(bytes) {
            lemma_archive_strings_parse_forward(
                data,
                advance(data.len(), body, length),
                (count - 1) as nat,
                insert_spec(table, vstd::utf8::decode_utf8(bytes)),
            );
        }
    }
}

/// The strings of the first `j` entries are written before the others.
proof fn lemma_utf8_strings_bytes_prefix(strings: Seq<Seq<char>>, j: int)
    requires
        0 <= j <= strings.len(),
    ensures
        utf8_strings_bytes(strings.take(j)).len() <= utf8_strings_bytes(strings).len(),
        utf8_strings_bytes(strings).take(utf8_strings_bytes(strings.take(j)).len() as int) == utf8_strings_bytes(
            strings.take(j),
        ),
    decreases strings.len(),
{
    if j == strings.len() {
        assert(strings.take(j) =~= strings);
        assert(utf8_strings_bytes(strings).take(utf8_strings_bytes(strings).len() as int) =~= utf8_strings_bytes(
            strings,
        ));
    } else {
        let init = strings.drop_last();
        assert(strings.take(j) =~= init.take(j));
        lemma_utf8_strings_bytes_prefix(init, j);
        let before = utf8_strings_bytes(init.take(j));
        assert(utf8_strings_bytes(strings).take(before.len() as int) =~= utf8_strings_bytes(init).take(
            before.len() as int,
        ));
    }
}

/// Whether every string is shorter than `2^60` bytes in UTF-8, as the string encoding needs.
pub open spec fn short_strings(strings: Seq<Seq<char>>) -> bool {
    forall|i: int| 0 <= i < strings.len() ==> vstd::utf8::encode_utf8(#[trigger] strings[i]).len() < vlq_max()
}

/// Reading the strings from the `j`th on, into the table of the first `j`, gives the table of all of them.
#[verifier::spinoff_prover]
#[verifier::rlimit(50)]
proof fn lemma_archive_strings_roundtrip_from(data: Seq<u8>, cursor: nat, strings: Seq<Seq<char>>, j: int)
    requires
        0 <= j <= strings.len(),
        short_strings(strings),
        cursor + utf8_strings_bytes(strings).len() <= data.len(),
        data.subrange(cursor as int, (cursor + utf8_strings_bytes(strings).len()) as int) == utf8_strings_bytes(
            strings,
        ),
    ensures
        archive_strings_parse(
            data,
            cursor + utf8_strings_bytes(strings.take(j)).len(),
            (strings.len() - j) as nat,
            table_of(strings.take(j)),
        ) == Some((table_of(strings), cursor + utf8_strings_bytes(strings).len())),
    decreases strings.len() - j,
{
    let whole = utf8_strings_bytes(strings);
    if j == strings.len() {
        assert(strings.take(j) =~= strings);
    } else {
        let string = strings[j];
        let next = strings.take(j + 1);
        let before = utf8_strings_bytes(strings.take(j));
        let bytes = utf8_string_bytes(string);
        assert(next.drop_last() =~= strings.take(j));
        assert(utf8_strings_bytes(next) == before + bytes);
        lemma_utf8_strings_bytes_prefix(strings, j + 1);
        let c = cursor + before.len();
        assert forall|i: int| 0 <= i < utf8_strings_bytes(next).len() implies data[cursor + i]
            == #[trigger] utf8_strings_bytes(next)[i] by {
            assert(data.subrange(cursor as int, (cursor + whole.len()) as int)[i] == whole[i]);
            assert(whole.take(utf8_strings_bytes(next).len() as int)[i] == whole[i]);
        }
        assert(data.subrange(c as int, (c + bytes.len()) as int) =~= bytes) by {
            assert forall|i: int| 0 <= i < bytes.len() implies data[c + i] == bytes[i] by {
                assert(utf8_strings_bytes(next)[before.len() + i] == bytes[i]);
            }
        }
        utf8_string_roundtrip(data, c, string);
        assert(table_of(next) == insert_spec(table_of(strings.take(j)), string));
        lemma_archive_strings_roundtrip_from(data, cursor, strings, j + 1);
    }
}

/// Reading a string table where one was written into a carton file gives back the table that inserting its strings in
/// ID order builds, and ends right after the table: for strings each shorter than `2^60` bytes.
pub proof fn archive_table_roundtrip(data: Seq<u8>, cursor: nat, table: StringTableView)
    requires
        short_strings(table.strings),
        table.strings.len() <= u64::MAX,
        cursor + archive_table_bytes(table).len() <= data.len(),
        data.subrange(cursor as int, (cursor + archive_table_bytes(table).len()) as int) == archive_table_bytes(table),
    ensures
        le_value(window(data, cursor, 8)) == table.strings.len(),
        archive_strings_parse(data, advance(data.len(), cursor, 8), table.strings.len(), table_of(Seq::empty()))
            == Some((table_of(table.strings), cursor + archive_table_bytes(table).len())),
{
    let strings = table.strings;
    let whole = archive_table_bytes(table);
    let count = le_bytes(strings.len(), 8);
    let body = utf8_strings_bytes(strings);
    super::stream::lemma_le_bytes_len(strings.len(), 8);
    lemma_window_inside(data, cursor, 8);
    assert(data.subrange(cursor as int, (cursor + 8) as int) =~= count) by {
        assert forall|i: int| 0 <= i < 8 implies data[cursor + i] == count[i] by {
            assert(data.subrange(cursor as int, (cursor + whole.len()) as int)[i] == whole[i]);
        }
    }
    super::stream::lemma_le_value_of_bytes(strings.len(), 8);
    lemma_byte_pow_8();
    vstd::arithmetic::div_mod::lemma_small_mod(strings.len(), byte_pow(8));
    assert(data.subrange((cursor + 8) as int, (cursor + 8 + body.len()) as int) =~= body) by {
        assert forall|i: int| 0 <= i < body.len() implies data[cursor + 8 + i] == body[i] by {
            assert(data.subrange(cursor as int, (cursor + whole.len()) as int)[8 + i] == whole[8 + i]);
        }
    }
    assert(strings.take(0) =~= Seq::<Seq<char>>::empty());
    lemma_archive_strings_roundtrip_from(data, cursor + 8, strings, 0);
}

/// A table built by inserting distinct strings holds them in ID order.
pub proof fn table_of_distinct_strings(strings: Seq<Seq<char>>)
    requires
        strings.no_duplicates(),
        strings.len() <= u64::MAX,
    ensures
        table_of(strings).strings == strings,
{
    lemma_table_of_distinct(strings);
}

} // verus!
