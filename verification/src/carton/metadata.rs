use vstd::prelude::*;

use super::error::CartonError;
use super::file_stream::{advance, lemma_window_inside, vlq_at, vlq_at_roundtrip, window, FileReadStream, StreamPosition};
use super::stream::{lemma_vlq_max, vlq_bytes, vlq_max};
use super::stream::writing::{write_u8, write_vlq};
use super::string_table::{insert_spec, StringTable, StringTableView};

verus! {

/// The error that parsing a TOML document gives.
#[verifier::external_type_specification]
#[verifier::external_body]
pub struct ExTomlError(toml::de::Error);

/// Emitted when a `.toml` metadata file cannot be parsed.
#[derive(Debug)]
pub enum FileMetadataError {
    /// Could not load the metadata file
    FileError,
    /// Metadata file did not have the .toml extension
    IncorrectExtension,
    /// Metadata file TOML contents could not be deserialized
    ParseError(toml::de::Error),
}

/// The type of an encoded metadata value, as its type byte names it.
#[derive(Clone, Copy, Debug, PartialEq, Eq, Structural)]
#[allow(non_camel_case_types, clippy::upper_case_acronyms)]
pub enum TOMLValueType {
    INVALID,
    STRING,
    INTEGER,
    FLOAT,
    BOOLEAN,
    DATETIME,
    ARRAY,
    TABLE,
}

/// The value type that a type byte names.
pub open spec fn value_type_of(number: u8) -> TOMLValueType {
    if number == 1 {
        TOMLValueType::STRING
    } else if number == 2 {
        TOMLValueType::INTEGER
    } else if number == 3 {
        TOMLValueType::FLOAT
    } else if number == 4 {
        TOMLValueType::BOOLEAN
    } else if number == 5 {
        TOMLValueType::DATETIME
    } else if number == 6 {
        TOMLValueType::ARRAY
    } else if number == 7 {
        TOMLValueType::TABLE
    } else {
        TOMLValueType::INVALID
    }
}

impl From<u8> for TOMLValueType {
    fn from(number: u8) -> (value_type: Self) {
        match number {
            1 => TOMLValueType::STRING,
            2 => TOMLValueType::INTEGER,
            3 => TOMLValueType::FLOAT,
            4 => TOMLValueType::BOOLEAN,
            5 => TOMLValueType::DATETIME,
            6 => TOMLValueType::ARRAY,
            7 => TOMLValueType::TABLE,
            _ => TOMLValueType::INVALID,
        }
    }
}

impl vstd::std_specs::convert::FromSpecImpl<u8> for TOMLValueType {
    open spec fn obeys_from_spec() -> bool {
        true
    }

    open spec fn from_spec(number: u8) -> TOMLValueType {
        value_type_of(number)
    }
}

/// A metadata value, as a TOML document holds it. Floats are held as their bit patterns.
#[derive(Debug)]
pub enum MetadataValue {
    String(String),
    Integer(i64),
    Float(u64),
    Boolean(bool),
    Datetime(String),
    Array(Vec<MetadataValue>),
    Table(Vec<(String, MetadataValue)>),
}

/// What a metadata value holds.
pub enum MetadataTree {
    String(Seq<char>),
    Integer(i64),
    Float(u64),
    Boolean(bool),
    Datetime(Seq<char>),
    Array(Seq<MetadataTree>),
    Table(Seq<(Seq<char>, MetadataTree)>),
}

pub open spec fn tree_of(value: MetadataValue) -> MetadataTree
    decreases value,
{
    match value {
        MetadataValue::String(s) => MetadataTree::String(s@),
        MetadataValue::Integer(n) => MetadataTree::Integer(n),
        MetadataValue::Float(bits) => MetadataTree::Float(bits),
        MetadataValue::Boolean(b) => MetadataTree::Boolean(b),
        MetadataValue::Datetime(s) => MetadataTree::Datetime(s@),
        MetadataValue::Array(items) => MetadataTree::Array(trees_of(items@)),
        MetadataValue::Table(entries) => MetadataTree::Table(entry_trees_of(entries@)),
    }
}

pub open spec fn trees_of(items: Seq<MetadataValue>) -> Seq<MetadataTree>
    decreases items,
{
    if items.len() == 0 {
        Seq::empty()
    } else {
        seq![tree_of(items[0])] + trees_of(items.subrange(1, items.len() as int))
    }
}

pub open spec fn entry_trees_of(entries: Seq<(String, MetadataValue)>) -> Seq<(Seq<char>, MetadataTree)>
    decreases entries,
{
    if entries.len() == 0 {
        Seq::empty()
    } else {
        seq![(entries[0].0@, tree_of(entries[0].1))] + entry_trees_of(entries.subrange(1, entries.len() as int))
    }
}

/// The ID that a string gets when it is encoded: its ID if the table has it, else the next ID, which inserting it
/// assigns. Also gives the table afterwards.
pub open spec fn string_id(table: StringTableView, string: Seq<char>) -> (u64, StringTableView) {
    if table.mapping.dom().contains(string) {
        (table.mapping[string], table)
    } else {
        (table.mapping.dom().len() as u64, insert_spec(table, string))
    }
}

/// Type bytes of encoded metadata values.
pub open spec fn type_byte(tree: MetadataTree) -> u8 {
    match tree {
        MetadataTree::String(_) => 1,
        MetadataTree::Integer(_) => 2,
        MetadataTree::Float(_) => 3,
        MetadataTree::Boolean(_) => 4,
        MetadataTree::Datetime(_) => 5,
        MetadataTree::Array(_) => 6,
        MetadataTree::Table(_) => 7,
    }
}

/// Whether a value can be encoded: it holds no float and no datetime, which have no encoding yet.
pub open spec fn encodable_tree(tree: MetadataTree) -> bool
    decreases tree,
{
    match tree {
        MetadataTree::Float(_) => false,
        MetadataTree::Datetime(_) => false,
        MetadataTree::Array(items) => encodable_trees(items),
        MetadataTree::Table(entries) => encodable_entries(entries),
        _ => true,
    }
}

pub open spec fn encodable_trees(items: Seq<MetadataTree>) -> bool
    decreases items,
{
    items.len() == 0 || (encodable_tree(items[0]) && encodable_trees(items.subrange(1, items.len() as int)))
}

pub open spec fn encodable_entries(entries: Seq<(Seq<char>, MetadataTree)>) -> bool
    decreases entries,
{
    entries.len() == 0 || (encodable_tree(entries[0].1) && encodable_entries(
        entries.subrange(1, entries.len() as int),
    ))
}

/// A list of trees can be encoded exactly when each of them can.
proof fn lemma_encodable_trees(items: Seq<MetadataTree>)
    ensures
        encodable_trees(items) <==> forall|i: int| 0 <= i < items.len() ==> encodable_tree(#[trigger] items[i]),
    decreases items.len(),
{
    if items.len() > 0 {
        let rest = items.subrange(1, items.len() as int);
        lemma_encodable_trees(rest);
        if forall|i: int| 0 <= i < items.len() ==> encodable_tree(#[trigger] items[i]) {
            assert forall|i: int| 0 <= i < rest.len() implies encodable_tree(#[trigger] rest[i]) by {
                assert(rest[i] == items[i + 1]);
            }
        }
        if encodable_trees(items) {
            assert forall|i: int| 0 <= i < items.len() implies encodable_tree(#[trigger] items[i]) by {
                if i > 0 {
                    assert(rest[i - 1] == items[i]);
                }
            }
        }
    }
}

/// A list of table entries can be encoded exactly when each of their values can.
proof fn lemma_encodable_entries(entries: Seq<(Seq<char>, MetadataTree)>)
    ensures
        encodable_entries(entries) <==> forall|i: int|
            0 <= i < entries.len() ==> encodable_tree(#[trigger] entries[i].1),
    decreases entries.len(),
{
    if entries.len() > 0 {
        let rest = entries.subrange(1, entries.len() as int);
        lemma_encodable_entries(rest);
        if forall|i: int| 0 <= i < entries.len() ==> encodable_tree(#[trigger] entries[i].1) {
            assert forall|i: int| 0 <= i < rest.len() implies encodable_tree(#[trigger] rest[i].1) by {
                assert(rest[i] == entries[i + 1]);
            }
        }
        if encodable_entries(entries) {
            assert forall|i: int| 0 <= i < entries.len() implies encodable_tree(#[trigger] entries[i].1) by {
                if i > 0 {
                    assert(rest[i - 1] == entries[i]);
                }
            }
        }
    }
}

/// Whether a value can be encoded: it holds no float and no datetime.
pub fn is_encodable(value: &MetadataValue) -> (result: bool)
    ensures
        result == encodable_tree(tree_of(*value)),
    decreases value,
{
    match value {
        MetadataValue::Float(_) => false,
        MetadataValue::Datetime(_) => false,
        MetadataValue::Array(items) => {
            proof {
                lemma_trees_of_index(items@);
                lemma_encodable_trees(trees_of(items@));
                assert forall|k: int| 0 <= k < items@.len() implies decreases_to!(*value => #[trigger] items@[k]) by {
                    assert(decreases_to!(*value => *items));
                    assert(decreases_to!(*items => items@));
                    assert(decreases_to!(items@ => items@[k]));
                }
            }
            for i in 0..items.len()
                invariant
                    trees_of(items@).len() == items@.len(),
                    forall|k: int| 0 <= k < items@.len() ==> #[trigger] trees_of(items@)[k] == tree_of(items@[k]),
                    forall|k: int| 0 <= k < items@.len() ==> decreases_to!(*value => #[trigger] items@[k]),
                    forall|j: int| 0 <= j < i ==> encodable_tree(#[trigger] trees_of(items@)[j]),
                    encodable_trees(trees_of(items@)) <==> forall|j: int|
                        0 <= j < items@.len() ==> encodable_tree(#[trigger] trees_of(items@)[j]),
                    tree_of(*value) == MetadataTree::Array(trees_of(items@)),
            {
                proof {
                    assert(decreases_to!(*value => items@[i as int]));
                }
                if !is_encodable(&items[i]) {
                    proof {
                        assert(!encodable_tree(trees_of(items@)[i as int]));
                    }
                    return false;
                }
            }
            true
        },
        MetadataValue::Table(entries) => {
            proof {
                lemma_entry_trees_of_index(entries@);
                lemma_encodable_entries(entry_trees_of(entries@));
                assert forall|k: int| 0 <= k < entries@.len() implies decreases_to!(
                    *value => #[trigger] entries@[k].1,
                ) by {
                    assert(decreases_to!(*value => *entries));
                    assert(decreases_to!(*entries => entries@));
                    assert(decreases_to!(entries@ => entries@[k]));
                    assert(decreases_to!(entries@[k] => entries@[k].1));
                }
            }
            for i in 0..entries.len()
                invariant
                    entry_trees_of(entries@).len() == entries@.len(),
                    forall|k: int|
                        0 <= k < entries@.len() ==> #[trigger] entry_trees_of(entries@)[k] == (
                            entries@[k].0@,
                            tree_of(entries@[k].1),
                        ),
                    forall|k: int| 0 <= k < entries@.len() ==> decreases_to!(*value => #[trigger] entries@[k].1),
                    forall|j: int| 0 <= j < i ==> encodable_tree(#[trigger] entry_trees_of(entries@)[j].1),
                    encodable_entries(entry_trees_of(entries@)) <==> forall|j: int|
                        0 <= j < entries@.len() ==> encodable_tree(#[trigger] entry_trees_of(entries@)[j].1),
                    tree_of(*value) == MetadataTree::Table(entry_trees_of(entries@)),
            {
                proof {
                    assert(decreases_to!(*value => entries@[i as int].1));
                }
                if !is_encodable(&entries[i].1) {
                    proof {
                        assert(!encodable_tree(entry_trees_of(entries@)[i as int].1));
                    }
                    return false;
                }
            }
            true
        },
        _ => true,
    }
}

/// The bytes that encode a value, and the string table afterwards: a type byte, then a string's ID, an integer's two's
/// complement bits, a boolean's byte, or a list's length and items; a table's entries are each a key's ID and a value.
/// IDs, integers and lengths are written as variable length quantities.
pub open spec fn value_encoding(tree: MetadataTree, table: StringTableView) -> (Seq<u8>, StringTableView)
    decreases tree,
{
    match tree {
        MetadataTree::String(string) => {
            let (id, after) = string_id(table, string);
            (seq![1u8] + vlq_bytes(id as nat, 4), after)
        },
        MetadataTree::Integer(number) => (seq![2u8] + vlq_bytes((number as u64) as nat, 4), table),
        MetadataTree::Boolean(b) => (seq![4u8, if b { 1u8 } else { 0u8 }], table),
        MetadataTree::Array(items) => {
            let (body, after) = values_encoding(items, table);
            (seq![6u8] + vlq_bytes(items.len(), 4) + body, after)
        },
        MetadataTree::Table(entries) => {
            let (body, after) = entries_encoding(entries, table);
            (seq![7u8] + vlq_bytes(entries.len(), 4) + body, after)
        },
        _ => (Seq::empty(), table),
    }
}

pub open spec fn values_encoding(items: Seq<MetadataTree>, table: StringTableView) -> (Seq<u8>, StringTableView)
    decreases items,
{
    if items.len() == 0 {
        (Seq::empty(), table)
    } else {
        let (first, middle) = value_encoding(items[0], table);
        let (rest, after) = values_encoding(items.subrange(1, items.len() as int), middle);
        (first + rest, after)
    }
}

pub open spec fn entries_encoding(entries: Seq<(Seq<char>, MetadataTree)>, table: StringTableView) -> (
    Seq<u8>,
    StringTableView,
)
    decreases entries,
{
    if entries.len() == 0 {
        (Seq::empty(), table)
    } else {
        let (id, keyed) = string_id(table, entries[0].0);
        let (value, middle) = value_encoding(entries[0].1, keyed);
        let (rest, after) = entries_encoding(entries.subrange(1, entries.len() as int), middle);
        (vlq_bytes(id as nat, 4) + value + rest, after)
    }
}

/// The ID of a string in the table, inserting it when it is missing.
fn string_id_of(string: &String, string_table: &mut StringTable) -> (id: u64)
    requires
        old(string_table).wf(),
    ensures
        final(string_table).wf(),
        (id, final(string_table).view()) == string_id(old(string_table).view(), string@),
{
    match string_table.get(string.as_str()) {
        Some(id) => id,
        None => string_table.insert(string.as_str()),
    }
}

proof fn lemma_trees_of_first(items: Seq<MetadataValue>, i: int)
    requires
        0 <= i < items.len(),
    ensures
        trees_of(items.subrange(i, items.len() as int)).len() == items.len() - i,
        trees_of(items.subrange(i, items.len() as int))[0] == tree_of(items[i]),
        trees_of(items.subrange(i, items.len() as int)).subrange(1, items.len() - i) == trees_of(
            items.subrange(i + 1, items.len() as int),
        ),
{
    let s = items.subrange(i, items.len() as int);
    lemma_trees_of_len(s);
    assert(s.subrange(1, s.len() as int) =~= items.subrange(i + 1, items.len() as int));
    assert(trees_of(s) == seq![tree_of(s[0])] + trees_of(s.subrange(1, s.len() as int)));
    assert(trees_of(s).subrange(1, items.len() - i) =~= trees_of(s.subrange(1, s.len() as int)));
}

proof fn lemma_trees_of_len(items: Seq<MetadataValue>)
    ensures
        trees_of(items).len() == items.len(),
    decreases items.len(),
{
    if items.len() > 0 {
        lemma_trees_of_len(items.subrange(1, items.len() as int));
    }
}

proof fn lemma_entry_trees_of_first(entries: Seq<(String, MetadataValue)>, i: int)
    requires
        0 <= i < entries.len(),
    ensures
        entry_trees_of(entries.subrange(i, entries.len() as int)).len() == entries.len() - i,
        entry_trees_of(entries.subrange(i, entries.len() as int))[0] == (entries[i].0@, tree_of(entries[i].1)),
        entry_trees_of(entries.subrange(i, entries.len() as int)).subrange(1, entries.len() - i) == entry_trees_of(
            entries.subrange(i + 1, entries.len() as int),
        ),
{
    let s = entries.subrange(i, entries.len() as int);
    lemma_entry_trees_of_len(s);
    assert(s.subrange(1, s.len() as int) =~= entries.subrange(i + 1, entries.len() as int));
    assert(entry_trees_of(s).subrange(1, entries.len() - i) =~= entry_trees_of(s.subrange(1, s.len() as int)));
}

proof fn lemma_entry_trees_of_len(entries: Seq<(String, MetadataValue)>)
    ensures
        entry_trees_of(entries).len() == entries.len(),
    decreases entries.len(),
{
    if entries.len() > 0 {
        lemma_entry_trees_of_len(entries.subrange(1, entries.len() as int));
    }
}

/// Encodes a metadata value, giving every string and table key its string table ID.
pub fn encode_value(value: &MetadataValue, vector: &mut Vec<u8>, string_table: &mut StringTable)
    requires
        old(string_table).wf(),
        encodable_tree(tree_of(*value)),
    ensures
        final(string_table).wf(),
        final(vector)@ == old(vector)@ + value_encoding(tree_of(*value), old(string_table).view()).0,
        final(string_table).view() == value_encoding(tree_of(*value), old(string_table).view()).1,
    decreases value,
{
    match value {
        MetadataValue::String(string) => {
            let id = string_id_of(string, string_table);
            write_u8(1, vector);
            write_vlq(id, vector);
        },
        MetadataValue::Integer(number) => {
            write_u8(2, vector);
            write_vlq(#[verifier::truncate] (*number as u64), vector);
        },
        MetadataValue::Boolean(boolean) => {
            write_u8(4, vector);
            write_u8(if *boolean { 1 } else { 0 }, vector);
        },
        MetadataValue::Array(array) => {
            write_u8(6, vector);
            write_vlq(array.len() as u64, vector);
            let ghost items = array@;
            let ghost start = vector@;
            let ghost table_start = string_table.view();
            proof {
                lemma_trees_of_len(items);
                assert(items.subrange(0, items.len() as int) =~= items);
                assert forall|k: int| 0 <= k < items.len() implies decreases_to!(*value => #[trigger] items[k]) by {
                    assert(decreases_to!(*value => *array));
                    assert(decreases_to!(*array => array@));
                    assert(decreases_to!(array@ => array@[k]));
                }
            }
            for i in 0..array.len()
                invariant
                    string_table.wf(),
                    items == array@,
                    forall|k: int| 0 <= k < items.len() ==> decreases_to!(*value => #[trigger] items[k]),
                    encodable_trees(trees_of(items.subrange(i as int, items.len() as int))),
                    values_encoding(trees_of(items), table_start).1 == values_encoding(
                        trees_of(items.subrange(i as int, items.len() as int)),
                        string_table.view(),
                    ).1,
                    start + values_encoding(trees_of(items), table_start).0 == vector@ + values_encoding(
                        trees_of(items.subrange(i as int, items.len() as int)),
                        string_table.view(),
                    ).0,
            {
                proof {
                    lemma_trees_of_first(items, i as int);
                    let rest = trees_of(items.subrange(i as int, items.len() as int));
                    assert(rest.subrange(1, rest.len() as int) == trees_of(items.subrange(i + 1, items.len() as int)));
                    assert(decreases_to!(*value => array@[i as int]));
                }
                encode_value(&array[i], vector, string_table);
                proof {
                    assert(vector@ + values_encoding(trees_of(items.subrange(i + 1, items.len() as int)), string_table.view()).0
                        =~= vector@ + values_encoding(trees_of(items.subrange(i + 1, items.len() as int)), string_table.view()).0);
                }
            }
            proof {
                assert(items.subrange(items.len() as int, items.len() as int) =~= Seq::<MetadataValue>::empty());
                assert(vector@ =~= start + values_encoding(trees_of(items), table_start).0);
            }
        },
        MetadataValue::Table(map) => {
            write_u8(7, vector);
            write_vlq(map.len() as u64, vector);
            let ghost entries = map@;
            let ghost start = vector@;
            let ghost table_start = string_table.view();
            proof {
                lemma_entry_trees_of_len(entries);
                assert(entries.subrange(0, entries.len() as int) =~= entries);
                assert forall|k: int| 0 <= k < entries.len() implies decreases_to!(*value => #[trigger] entries[k].1) by {
                    assert(decreases_to!(*value => *map));
                    assert(decreases_to!(*map => map@));
                    assert(decreases_to!(map@ => map@[k]));
                    assert(decreases_to!(map@[k] => map@[k].1));
                }
            }
            for i in 0..map.len()
                invariant
                    string_table.wf(),
                    entries == map@,
                    forall|k: int| 0 <= k < entries.len() ==> decreases_to!(*value => #[trigger] entries[k].1),
                    encodable_entries(entry_trees_of(entries.subrange(i as int, entries.len() as int))),
                    entries_encoding(entry_trees_of(entries), table_start).1 == entries_encoding(
                        entry_trees_of(entries.subrange(i as int, entries.len() as int)),
                        string_table.view(),
                    ).1,
                    start + entries_encoding(entry_trees_of(entries), table_start).0 == vector@ + entries_encoding(
                        entry_trees_of(entries.subrange(i as int, entries.len() as int)),
                        string_table.view(),
                    ).0,
            {
                proof {
                    lemma_entry_trees_of_first(entries, i as int);
                    assert(decreases_to!(*value => map@[i as int].1));
                }
                let id = string_id_of(&map[i].0, string_table);
                write_vlq(id, vector);
                encode_value(&map[i].1, vector, string_table);
            }
            proof {
                assert(entries.subrange(entries.len() as int, entries.len() as int) =~= Seq::<(String, MetadataValue)>::empty());
                assert(vector@ =~= start + entries_encoding(entry_trees_of(entries), table_start).0);
            }
        },
        MetadataValue::Float(_) => {
            proof {
                assert(false);
            }
        },
        MetadataValue::Datetime(_) => {
            proof {
                assert(false);
            }
        },
    }
    proof {
        assert(final(vector)@ =~= old(vector)@ + value_encoding(tree_of(*value), old(string_table).view()).0);
    }
}

/// Why decoding a metadata value stops.
pub enum ValueError {
    /// The type byte names no value type.
    InvalidType(u8),
    /// A string ID that the string table does not have.
    NotInStringTable(u64),
    /// A float or datetime, which have no decoding yet.
    Unsupported,
}

/// How many bytes of the file remain after the cursor.
pub open spec fn remaining(data: Seq<u8>, cursor: nat) -> nat {
    if cursor < data.len() {
        (data.len() - cursor) as nat
    } else {
        0
    }
}

/// The result of decoding a metadata value from a file at `cursor` with a string table's strings: the value and the
/// cursor after it, or why decoding stops. Past the end of the file the type byte reads as zero, which names no type.
pub open spec fn value_parse(data: Seq<u8>, cursor: nat, strings: Seq<Seq<char>>) -> Result<
    (MetadataTree, nat),
    ValueError,
>
    decreases remaining(data, cursor), 0nat,
{
    if cursor >= data.len() {
        Err(ValueError::InvalidType(0))
    } else {
        let value_type = data[cursor as int];
        let body = cursor + 1;
        let (number, length) = vlq_at(data, body);
        let after = advance(data.len(), body, length);
        if value_type == 1 {
            if number < strings.len() {
                Ok((MetadataTree::String(strings[number as int]), after))
            } else {
                Err(ValueError::NotInStringTable(number as u64))
            }
        } else if value_type == 2 {
            Ok((MetadataTree::Integer((number as u64) as i64), after))
        } else if value_type == 3 || value_type == 5 {
            Err(ValueError::Unsupported)
        } else if value_type == 4 {
            Ok((MetadataTree::Boolean(window(data, body, 1)[0] != 0), advance(data.len(), body, 1)))
        } else if value_type == 6 {
            match list_parse(data, after, number, strings) {
                Err(error) => Err(error),
                Ok((items, end)) => Ok((MetadataTree::Array(items), end)),
            }
        } else if value_type == 7 {
            match table_parse_into(data, after, number, strings, Seq::empty()) {
                Err(error) => Err(error),
                Ok((entries, end)) => Ok((MetadataTree::Table(entries), end)),
            }
        } else {
            Err(ValueError::InvalidType(value_type))
        }
    }
}

/// The result of decoding `count` values one after another.
pub open spec fn list_parse(data: Seq<u8>, cursor: nat, count: nat, strings: Seq<Seq<char>>) -> Result<
    (Seq<MetadataTree>, nat),
    ValueError,
>
    decreases remaining(data, cursor), count,
{
    if count == 0 {
        Ok((Seq::empty(), cursor))
    } else {
        match value_parse(data, cursor, strings) {
            Err(error) => Err(error),
            Ok((item, next)) => if next >= cursor {
                match list_parse(data, next, (count - 1) as nat, strings) {
                    Err(error) => Err(error),
                    Ok((items, end)) => Ok((seq![item] + items, end)),
                }
            } else {
                Err(ValueError::InvalidType(0))
            },
        }
    }
}

/// The entries of a table after setting `key` to `value`: an existing entry for the key gets the value, else the entry
/// goes last.
pub open spec fn set_entry(entries: Seq<(Seq<char>, MetadataTree)>, key: Seq<char>, value: MetadataTree) -> Seq<
    (Seq<char>, MetadataTree),
> {
    if exists|i: int| 0 <= i < entries.len() && entries[i].0 == key {
        let i = choose|i: int| 0 <= i < entries.len() && entries[i].0 == key;
        entries.update(i, (key, value))
    } else {
        entries.push((key, value))
    }
}

/// The result of decoding `count` table entries, each a key's string ID and a value, into `entries`.
pub open spec fn table_parse_into(
    data: Seq<u8>,
    cursor: nat,
    count: nat,
    strings: Seq<Seq<char>>,
    entries: Seq<(Seq<char>, MetadataTree)>,
) -> Result<(Seq<(Seq<char>, MetadataTree)>, nat), ValueError>
    decreases remaining(data, cursor), count,
{
    if count == 0 {
        Ok((entries, cursor))
    } else {
        let (id, length) = vlq_at(data, cursor);
        let key_end = advance(data.len(), cursor, length);
        if id >= strings.len() {
            Err(ValueError::NotInStringTable(id as u64))
        } else {
            match value_parse(data, key_end, strings) {
                Err(error) => Err(error),
                Ok((value, next)) => if next >= cursor {
                    table_parse_into(
                        data,
                        next,
                        (count - 1) as nat,
                        strings,
                        set_entry(entries, strings[id as int], value),
                    )
                } else {
                    Err(ValueError::InvalidType(0))
                },
            }
        }
    }
}

proof fn lemma_trees_of_index(items: Seq<MetadataValue>)
    ensures
        trees_of(items).len() == items.len(),
        forall|i: int| 0 <= i < items.len() ==> #[trigger] trees_of(items)[i] == tree_of(items[i]),
    decreases items.len(),
{
    if items.len() > 0 {
        let rest = items.subrange(1, items.len() as int);
        lemma_trees_of_index(rest);
        assert forall|i: int| 0 <= i < items.len() implies #[trigger] trees_of(items)[i] == tree_of(items[i]) by {
            if i > 0 {
                assert(trees_of(items)[i] == trees_of(rest)[i - 1]);
                assert(rest[i - 1] == items[i]);
            }
        }
    }
}

proof fn lemma_entry_trees_of_index(entries: Seq<(String, MetadataValue)>)
    ensures
        entry_trees_of(entries).len() == entries.len(),
        forall|i: int|
            0 <= i < entries.len() ==> #[trigger] entry_trees_of(entries)[i] == (entries[i].0@, tree_of(entries[i].1)),
    decreases entries.len(),
{
    if entries.len() > 0 {
        let rest = entries.subrange(1, entries.len() as int);
        lemma_entry_trees_of_index(rest);
        assert forall|i: int| 0 <= i < entries.len() implies #[trigger] entry_trees_of(entries)[i] == (
            entries[i].0@,
            tree_of(entries[i].1),
        ) by {
            if i > 0 {
                assert(entry_trees_of(entries)[i] == entry_trees_of(rest)[i - 1]);
                assert(rest[i - 1] == entries[i]);
            }
        }
    }
}

/// No key occurs twice among the entries.
pub open spec fn distinct_entry_keys(entries: Seq<(Seq<char>, MetadataTree)>) -> bool {
    forall|i: int, j: int| 0 <= i < j < entries.len() ==> #[trigger] entries[i].0 != #[trigger] entries[j].0
}

/// Sets a table entry: an existing entry for the key gets the value, else the entry goes last.
fn set_table_entry(map: &mut Vec<(String, MetadataValue)>, key: String, value: MetadataValue)
    requires
        distinct_entry_keys(entry_trees_of(old(map)@)),
    ensures
        distinct_entry_keys(entry_trees_of(final(map)@)),
        entry_trees_of(final(map)@) == set_entry(entry_trees_of(old(map)@), key@, tree_of(value)),
{
    proof {
        lemma_entry_trees_of_index(map@);
    }
    let ghost before = entry_trees_of(map@);
    let ghost new_tree = tree_of(value);
    let mut i: usize = 0;
    while i < map.len()
        invariant
            i <= map@.len(),
            before == entry_trees_of(map@),
            before.len() == map@.len(),
            forall|j: int| 0 <= j < map@.len() ==> #[trigger] before[j] == (map@[j].0@, tree_of(map@[j].1)),
            distinct_entry_keys(before),
            new_tree == tree_of(value),
            map@ == old(map)@,
            forall|j: int| 0 <= j < i ==> map@[j].0@ != key@,
        decreases map@.len() - i,
    {
        if map[i].0 == key {
            let ghost entry_key = key@;
            let entry = (key, value);
            let ghost entry_copy = entry;
            assert(entry_copy.0@ == entry_key);
            assert(tree_of(entry_copy.1) == new_tree);
            map.set(i, entry);
            proof {
                lemma_entry_trees_of_index(map@);
                assert(before[i as int] == (old(map)@[i as int].0@, tree_of(old(map)@[i as int].1)));
                assert(before[i as int].0 == entry_key);
                assert(exists|k: int| 0 <= k < before.len() && before[k].0 == entry_key);
                let chosen = choose|k: int| 0 <= k < before.len() && before[k].0 == entry_key;
                if chosen != i {
                    if chosen < i {
                        assert(before[chosen].0 != before[i as int].0);
                    } else {
                        assert(before[i as int].0 != before[chosen].0);
                    }
                }
                assert forall|j: int| 0 <= j < map@.len() implies #[trigger] entry_trees_of(map@)[j] == before.update(
                    i as int,
                    (entry_key, new_tree),
                )[j] by {
                    if j == i {
                        assert(map@[j] == entry_copy);
                    } else {
                        assert(map@[j] == old(map)@[j]);
                        assert(before[j] == (old(map)@[j].0@, tree_of(old(map)@[j].1)));
                    }
                }
                assert(entry_trees_of(map@) =~= before.update(i as int, (entry_key, new_tree)));
            }
            return ;
        }
        i = i + 1;
    }
    let ghost entry_key = key@;
    map.push((key, value));
    proof {
        lemma_entry_trees_of_index(map@);
        assert(!exists|k: int| 0 <= k < before.len() && before[k].0 == entry_key);
        assert(entry_trees_of(map@) =~= before.push((entry_key, new_tree)));
    }
}

/// A TOML value as the `toml` crate parses it.
#[verifier::external_type_specification]
#[verifier::external_body]
pub struct ExTomlValue(toml::Value);

/// The tree of the TOML document `contents`, or nothing when `contents` is not TOML.
pub uninterp spec fn toml_document(contents: Seq<char>) -> Option<MetadataTree>;

/// Turns a `toml::Value` into a metadata value, variant for variant: strings, integers, booleans, arrays and tables
/// as they are, floats by their bits and datetimes by their text.
#[verifier::external_body]
fn metadata_of_toml(value: &toml::Value) -> MetadataValue {
    match value {
        toml::Value::String(string) => MetadataValue::String(string.clone()),
        toml::Value::Integer(number) => MetadataValue::Integer(*number),
        toml::Value::Float(number) => MetadataValue::Float(number.to_bits()),
        toml::Value::Boolean(boolean) => MetadataValue::Boolean(*boolean),
        toml::Value::Datetime(datetime) => MetadataValue::Datetime(datetime.to_string()),
        toml::Value::Array(items) => MetadataValue::Array(items.iter().map(metadata_of_toml).collect()),
        toml::Value::Table(table) => MetadataValue::Table(
            table.iter().map(|(key, value)| (key.clone(), metadata_of_toml(value))).collect(),
        ),
    }
}

/// Parses a TOML document with `toml::from_str::<toml::Value>` and turns the value into a metadata value. Claimed:
/// parsing fails exactly when `toml_document` names no tree for the contents, and otherwise the value's tree is the
/// tree it names.
#[verifier::external_body]
fn toml_parse(contents: &str) -> (result: Result<MetadataValue, toml::de::Error>)
    ensures
        result matches Ok(value) ==> toml_document(contents@) == Some(tree_of(value)),
        result is Err <==> toml_document(contents@) is None,
{
    match toml::from_str::<toml::Value>(contents) {
        Ok(value) => Ok(metadata_of_toml(&value)),
        Err(error) => Err(error),
    }
}

/// Whether UTF-8 bytes of a file name end with `.toml`.
pub open spec fn toml_named(bytes: Seq<u8>) -> bool {
    bytes.len() >= 5 && bytes.skip(bytes.len() - 5) == toml_extension()
}

/// Whether a file name ends with `.toml`.
fn has_toml_extension(file_name: &str) -> (result: bool)
    ensures
        result == toml_named(vstd::utf8::encode_utf8(file_name@)),
{
    let bytes = file_name.as_bytes();
    let length = bytes.len();
    if length < 5 {
        return false;
    }
    let expected: [u8; 5] = [46, 116, 111, 109, 108];
    let mut matches = true;
    for i in 0..5
        invariant
            bytes@ == vstd::utf8::encode_utf8(file_name@),
            length == bytes@.len(),
            length >= 5,
            matches == (forall|j: int| 0 <= j < i ==> bytes@[length - 5 + j] == expected@[j]),
    {
        if bytes[length - 5 + i] != expected[i] {
            matches = false;
        }
    }
    proof {
        assert(expected@ =~= toml_extension());
        if matches {
            assert(bytes@.skip(length - 5) =~= toml_extension());
        } else {
            assert(bytes@.skip(length - 5) != toml_extension()) by {
                let j = choose|j: int| 0 <= j < 5 && bytes@[length - 5 + j] != expected@[j];
                assert(bytes@.skip(length - 5)[j] == bytes@[length - 5 + j]);
            }
        }
    }
    matches
}

/// The name of the file that a `.toml` file describes: its name without the extension.
fn toml_stem(file_name: &str) -> (stem: String)
    requires
        toml_named(vstd::utf8::encode_utf8(file_name@)),
    ensures
        ({
            let bytes = vstd::utf8::encode_utf8(file_name@);
            stem@ == vstd::utf8::decode_utf8(bytes.take(bytes.len() - 5))
        }),
{
    let ghost bytes = vstd::utf8::encode_utf8(file_name@);
    let length = file_name.as_bytes().len();
    proof {
        vstd::utf8::encode_utf8_valid_utf8(file_name@);
        assert(bytes.skip(bytes.len() - 5)[0] == 46u8);
        assert(bytes[length - 5] == 46u8);
        vstd::utf8::is_char_boundary_iff_not_is_continuation_byte(bytes, length - 5);
    }
    let (stem, _) = file_name.split_at(length - 5);
    proof {
        vstd::utf8::encode_utf8_decode_utf8(stem@);
        assert(vstd::utf8::encode_utf8(stem@) =~= bytes.take(length - 5));
    }
    stem.to_owned()
}

/// Whether decoding a value at `cursor` meets a float or datetime before it stops.
pub open spec fn meets_unsupported(data: Seq<u8>, cursor: nat, strings: Seq<Seq<char>>) -> bool {
    value_parse(data, cursor, strings) matches Err(ValueError::Unsupported)
}

/// Why decoding a value stopped: a float or datetime, which have no decoding yet, or an error.
pub enum ValueScanError {
    Unsupported,
    Carton(CartonError),
}

/// Decodes a metadata value, looking strings and table keys up in the string table.
pub fn decode_value(stream: &mut FileReadStream, string_table: &StringTable) -> (result: Result<
    (MetadataValue, StreamPosition),
    CartonError,
>)
    requires
        !meets_unsupported(old(stream).data(), old(stream).cursor(), string_table.view().strings),
    ensures
        final(stream).data() == old(stream).data(),
        final(stream).cursor() >= old(stream).cursor(),
        match value_parse(old(stream).data(), old(stream).cursor(), string_table.view().strings) {
            Ok((tree, end)) => result matches Ok((value, position)) && tree_of(value) == tree && position == end
                && final(stream).cursor() == end,
            Err(ValueError::InvalidType(value_type)) => result matches Err(CartonError::InvalidTOMLType(emitted))
                && emitted == value_type,
            Err(ValueError::NotInStringTable(id)) => result matches Err(CartonError::NotInStringTable(emitted))
                && emitted == id,
            Err(ValueError::Unsupported) => false,
        },
{
    match parse_value(stream, string_table) {
        Ok(pair) => Ok(pair),
        Err(ValueScanError::Carton(error)) => Err(error),
        Err(ValueScanError::Unsupported) => Err(CartonError::InvalidTOMLType(3)),
    }
}

/// Whether decoding a value at the stream's cursor meets a float or datetime before it stops.
pub fn is_unsupported_at(stream: &mut FileReadStream, string_table: &StringTable) -> (result: bool)
    ensures
        final(stream).data() == old(stream).data(),
        result == meets_unsupported(old(stream).data(), old(stream).cursor(), string_table.view().strings),
{
    match parse_value(stream, string_table) {
        Err(ValueScanError::Unsupported) => true,
        _ => false,
    }
}

/// Decodes a metadata value, or finds the float or datetime that stops it.
fn parse_value(stream: &mut FileReadStream, string_table: &StringTable) -> (result: Result<
    (MetadataValue, StreamPosition),
    ValueScanError,
>)
    ensures
        final(stream).data() == old(stream).data(),
        final(stream).cursor() >= old(stream).cursor(),
        match value_parse(old(stream).data(), old(stream).cursor(), string_table.view().strings) {
            Ok((tree, end)) => result matches Ok((value, position)) && tree_of(value) == tree && position == end
                && final(stream).cursor() == end,
            Err(ValueError::InvalidType(value_type)) => result matches Err(
                ValueScanError::Carton(CartonError::InvalidTOMLType(emitted)),
            ) && emitted == value_type,
            Err(ValueError::NotInStringTable(id)) => result matches Err(
                ValueScanError::Carton(CartonError::NotInStringTable(emitted)),
            ) && emitted == id,
            Err(ValueError::Unsupported) => result matches Err(ValueScanError::Unsupported),
        },
    decreases remaining(old(stream).data(), old(stream).cursor()),
{
    let ghost data = stream.data();
    let ghost start = stream.cursor();
    let ghost strings = string_table.view().strings;
    let (value_type, _) = stream.read_u8();
    proof {
        if start < data.len() {
            assert(window(data, start, 1)[0] == data[start as int]);
        }
    }
    if value_type == 1 {
        let (id, position) = stream.read_vlq();
        match string_table.get_from_index(id) {
            Some(string) => Ok((MetadataValue::String(string.clone()), position)),
            None => Err(ValueScanError::Carton(CartonError::NotInStringTable(id))),
        }
    } else if value_type == 2 {
        let (number, position) = stream.read_vlq();
        Ok((MetadataValue::Integer(#[verifier::truncate] (number as i64)), position))
    } else if value_type == 4 {
        let (number, position) = stream.read_u8();
        Ok((MetadataValue::Boolean(number != 0), position))
    } else if value_type == 6 {
        let (length, position) = stream.read_vlq();
        let mut position = position;
        let ghost list_start = stream.cursor();
        let mut array: Vec<MetadataValue> = Vec::new();
        let mut i: u64 = 0;
        proof {
            assert(trees_of(array@) =~= Seq::<MetadataTree>::empty());
            assert(list_start > start);
            assert(value_parse(data, start, strings) == match list_parse(data, list_start, length as nat, strings) {
                Err(error) => Err(error),
                Ok((items, end)) => Ok((MetadataTree::Array(items), end)),
            });
        }
        while i < length
            invariant
                data == old(stream).data(),
                start == old(stream).cursor(),
                stream.data() == data,
                strings == string_table.view().strings,
                start < data.len(),
                list_start > start,
                value_parse(data, start, strings) == match list_parse(data, list_start, length as nat, strings) {
                    Err(error) => Err(error),
                    Ok((items, end)) => Ok((MetadataTree::Array(items), end)),
                },
                stream.cursor() >= list_start,
                position == stream.cursor(),
                i <= length,
                list_parse(data, list_start, length as nat, strings) == match list_parse(
                    data,
                    stream.cursor(),
                    (length - i) as nat,
                    strings,
                ) {
                    Ok((rest, end)) => Ok((trees_of(array@) + rest, end)),
                    Err(error) => Err(error),
                },
            decreases length - i,
        {
            let ghost here = stream.cursor();
            let (value, next) = match parse_value(stream, string_table) {
                Ok(pair) => pair,
                Err(error) => return Err(error),
            };
            proof {
                lemma_trees_of_index(array@);
                lemma_trees_of_index(array@.push(value));
                let tree = tree_of(value);
                match list_parse(data, stream.cursor(), (length - i - 1) as nat, strings) {
                    Ok((rest, end)) => {
                        assert(trees_of(array@.push(value)) =~= trees_of(array@).push(tree));
                        assert(trees_of(array@) + (seq![tree] + rest) =~= trees_of(array@.push(value)) + rest);
                    },
                    Err(_) => {},
                }
            }
            position = next;
            array.push(value);
            i = i + 1;
        }
        proof {
            assert(trees_of(array@) + Seq::<MetadataTree>::empty() =~= trees_of(array@));
        }
        Ok((MetadataValue::Array(array), position))
    } else if value_type == 7 {
        let (length, position) = stream.read_vlq();
        let mut position = position;
        let ghost table_start = stream.cursor();
        let mut map: Vec<(String, MetadataValue)> = Vec::new();
        let mut i: u64 = 0;
        proof {
            assert(entry_trees_of(map@) =~= Seq::<(Seq<char>, MetadataTree)>::empty());
            assert(value_parse(data, start, strings) == match table_parse_into(
                data,
                table_start,
                length as nat,
                strings,
                Seq::empty(),
            ) {
                Err(error) => Err(error),
                Ok((entries, end)) => Ok((MetadataTree::Table(entries), end)),
            });
        }
        while i < length
            invariant
                data == old(stream).data(),
                start == old(stream).cursor(),
                stream.data() == data,
                strings == string_table.view().strings,
                start < data.len(),
                table_start > start,
                value_parse(data, start, strings) == match table_parse_into(
                    data,
                    table_start,
                    length as nat,
                    strings,
                    Seq::empty(),
                ) {
                    Err(error) => Err(error),
                    Ok((entries, end)) => Ok((MetadataTree::Table(entries), end)),
                },
                stream.cursor() >= table_start,
                position == stream.cursor(),
                i <= length,
                distinct_entry_keys(entry_trees_of(map@)),
                table_parse_into(data, table_start, length as nat, strings, Seq::empty()) == table_parse_into(
                    data,
                    stream.cursor(),
                    (length - i) as nat,
                    strings,
                    entry_trees_of(map@),
                ),
            decreases length - i,
        {
            let ghost here = stream.cursor();
            let (id, _) = stream.read_vlq();
            let key = match string_table.get_from_index(id) {
                Some(key) => key.clone(),
                None => return Err(ValueScanError::Carton(CartonError::NotInStringTable(id))),
            };
            let (value, next) = match parse_value(stream, string_table) {
                Ok(pair) => pair,
                Err(error) => return Err(error),
            };
            position = next;
            set_table_entry(&mut map, key, value);
            i = i + 1;
        }
        Ok((MetadataValue::Table(map), position))
    } else if value_type == 3 || value_type == 5 {
        Err(ValueScanError::Unsupported)
    } else {
        Err(ValueScanError::Carton(CartonError::InvalidTOMLType(value_type)))
    }
}

/// Represents metadata for a file stored in a carton. All metadata has a corresponding file it describes. Metadata is
/// interpreted from a TOML file that has the same name as the file it describes with the `.toml` extension appended.
#[derive(Debug)]
pub struct FileMetadata {
    /// File that the `FileMetadata`'s metadata describes.
    file_name: String,
    /// Indexable metadata contents
    value: MetadataValue,
}

/// The bytes of the `.toml` extension.
pub open spec fn toml_extension() -> Seq<u8> {
    seq![46u8, 116u8, 111u8, 109u8, 108u8]
}

impl FileMetadata {
    pub closed spec fn file_name_spec(&self) -> Seq<char> {
        self.file_name@
    }

    pub closed spec fn value_spec(&self) -> MetadataValue {
        self.value
    }

    /// Parses the contents of a `.toml` metadata file named `file_name`: the metadata belongs to the file named like
    /// the `.toml` file without its extension. A name that does not end with `.toml` is refused before anything else;
    /// contents that are not TOML give the parser's error.
    pub fn parse(file_name: &str, contents: &str) -> (result: Result<FileMetadata, FileMetadataError>)
        ensures
            ({
                let bytes = vstd::utf8::encode_utf8(file_name@);
                if !toml_named(bytes) {
                    result matches Err(FileMetadataError::IncorrectExtension)
                } else {
                    match toml_document(contents@) {
                        None => result matches Err(FileMetadataError::ParseError(_)),
                        Some(tree) => result matches Ok(metadata) && metadata.file_name_spec()
                            == vstd::utf8::decode_utf8(bytes.take(bytes.len() - 5)) && tree_of(metadata.value_spec())
                            == tree,
                    }
                }
            }),
    {
        if !has_toml_extension(file_name) {
            return Err(FileMetadataError::IncorrectExtension);
        }
        let value = match toml_parse(contents) {
            Ok(value) => value,
            Err(error) => return Err(FileMetadataError::ParseError(error)),
        };
        Ok(FileMetadata { file_name: toml_stem(file_name), value })
    }

    /// Builds the metadata that a `.toml` file describes, `contents` being what reading the file gave, or nothing when
    /// it could not be read. A name that does not end with `.toml` is refused before anything else; an unreadable
    /// file gives `FileError`; readable contents are parsed as `parse` does.
    pub fn from_file(file_name: &str, contents: Option<&str>) -> (result: Result<FileMetadata, FileMetadataError>)
        ensures
            ({
                let bytes = vstd::utf8::encode_utf8(file_name@);
                if !toml_named(bytes) {
                    result matches Err(FileMetadataError::IncorrectExtension)
                } else {
                    match contents {
                        None => result matches Err(FileMetadataError::FileError),
                        Some(text) => match toml_document(text@) {
                            None => result matches Err(FileMetadataError::ParseError(_)),
                            Some(tree) => result matches Ok(metadata) && metadata.file_name_spec()
                                == vstd::utf8::decode_utf8(bytes.take(bytes.len() - 5)) && tree_of(
                                metadata.value_spec(),
                            ) == tree,
                        },
                    }
                }
            }),
    {
        if !has_toml_extension(file_name) {
            return Err(FileMetadataError::IncorrectExtension);
        }
        match contents {
            None => Err(FileMetadataError::FileError),
            Some(text) => FileMetadata::parse(file_name, text),
        }
    }

    /// Create a metadata object from a pre-existing value.
    pub fn from_toml_value(file_name: &str, value: MetadataValue) -> (metadata: FileMetadata)
        ensures
            metadata.file_name_spec() == file_name@,
            metadata.value_spec() == value,
    {
        FileMetadata { file_name: file_name.to_owned(), value }
    }

    /// The metadata's value.
    pub fn get_file_metadata_toml(&self) -> (value: &MetadataValue)
        ensures
            *value == self.value_spec(),
    {
        &self.value
    }

    /// The name of the file that the metadata describes.
    pub fn get_file_name(&self) -> (file_name: &String)
        ensures
            file_name@ == self.file_name_spec(),
    {
        &self.file_name
    }
}

/// Encode the value in the metadata.
pub fn encode_metadata(vector: &mut Vec<u8>, metadata: &FileMetadata, string_table: &mut StringTable)
    requires
        old(string_table).wf(),
        encodable_tree(tree_of(metadata.value_spec())),
    ensures
        final(string_table).wf(),
        final(vector)@ == old(vector)@ + value_encoding(tree_of(metadata.value_spec()), old(string_table).view()).0,
        final(string_table).view() == value_encoding(tree_of(metadata.value_spec()), old(string_table).view()).1,
{
    encode_value(metadata.get_file_metadata_toml(), vector, string_table)
}

/// Whether a value reads back as it is written: it holds no float and no datetime, its integers lie in `0..2^60`, its
/// lists and tables hold fewer than `2^60` items, and no table has a key twice.
pub open spec fn restorable_tree(tree: MetadataTree) -> bool
    decreases tree,
{
    match tree {
        MetadataTree::String(_) => true,
        MetadataTree::Integer(number) => 0 <= number < vlq_max(),
        MetadataTree::Boolean(_) => true,
        MetadataTree::Array(items) => items.len() < vlq_max() && restorable_trees(items),
        MetadataTree::Table(entries) => entries.len() < vlq_max() && distinct_entry_keys(entries)
            && restorable_entries(entries),
        _ => false,
    }
}

pub open spec fn restorable_trees(items: Seq<MetadataTree>) -> bool
    decreases items,
{
    items.len() == 0 || (restorable_tree(items[0]) && restorable_trees(items.subrange(1, items.len() as int)))
}

pub open spec fn restorable_entries(entries: Seq<(Seq<char>, MetadataTree)>) -> bool
    decreases entries,
{
    entries.len() == 0 || (restorable_tree(entries[0].1) && restorable_entries(
        entries.subrange(1, entries.len() as int),
    ))
}

/// Whether a string table maps exactly as many strings as it holds.
pub open spec fn aligned_table(table: StringTableView) -> bool {
    &&& table.mapping.dom().finite()
    &&& table.mapping.dom().len() == table.strings.len()
}

/// Whether the strings that a table maps are the strings it holds, each with its position as its ID, and it holds at
/// most `u64::MAX` strings.
pub open spec fn consistent_table(table: StringTableView) -> bool {
    &&& aligned_table(table)
    &&& table.strings.len() <= u64::MAX
    &&& forall|string: Seq<char>| #[trigger]
        table.mapping.dom().contains(string) ==> table.mapping[string] < table.strings.len()
            && table.strings[table.mapping[string] as int] == string
    &&& forall|i: int|
        0 <= i < table.strings.len() ==> table.mapping.dom().contains(#[trigger] table.strings[i])
            && table.mapping[table.strings[i]] == i
}

/// A consistent table holds no string twice.
pub proof fn lemma_consistent_distinct(table: StringTableView)
    requires
        consistent_table(table),
    ensures
        table.strings.no_duplicates(),
{
    assert forall|i: int, j: int| 0 <= i < table.strings.len() && 0 <= j < table.strings.len() && i != j implies table.strings[i]
        != table.strings[j] by {
        assert(table.mapping[table.strings[i]] == i);
        assert(table.mapping[table.strings[j]] == j);
    }
}

/// Looking a string up in a consistent table, or adding it, gives an ID that names the string, and keeps the table's
/// strings in front.
proof fn lemma_string_id_table(table: StringTableView, string: Seq<char>)
    requires
        aligned_table(table),
    ensures
        aligned_table(string_id(table, string).1),
        table.strings.is_prefix_of(string_id(table, string).1.strings),
        consistent_table(table) ==> string_id(table, string).0 < string_id(table, string).1.strings.len()
            && string_id(table, string).1.strings[string_id(table, string).0 as int] == string,
        consistent_table(table) && string_id(table, string).1.strings.len() <= u64::MAX ==> consistent_table(
            string_id(table, string).1,
        ),
{
    if !table.mapping.dom().contains(string) {
        let after = insert_spec(table, string);
        let index = table.mapping.dom().len();
        assert(after.mapping.dom() =~= table.mapping.dom().insert(string));
        assert(after.strings =~= table.strings.push(string));
        assert(table.strings.is_prefix_of(after.strings)) by {
            assert(table.strings =~= after.strings.subrange(0, table.strings.len() as int));
        }
        if consistent_table(table) && after.strings.len() <= u64::MAX {
            assert(index as u64 == index);
            assert forall|s: Seq<char>| #[trigger] after.mapping.dom().contains(s) implies after.mapping[s]
                < after.strings.len() && after.strings[after.mapping[s] as int] == s by {
                if s != string {
                    assert(table.mapping.dom().contains(s));
                }
            }
            assert forall|i: int| 0 <= i < after.strings.len() implies after.mapping.dom().contains(
                #[trigger] after.strings[i],
            ) && after.mapping[after.strings[i]] == i by {
                if i < table.strings.len() {
                    assert(table.mapping.dom().contains(table.strings[i]));
                    assert(table.strings[i] != string);
                }
            }
        }
    } else {
        assert(table.strings.is_prefix_of(table.strings)) by {
            assert(table.strings =~= table.strings.subrange(0, table.strings.len() as int));
        }
    }
}

/// `a` in front of `b` and `b` in front of `c` puts `a` in front of `c`.
proof fn lemma_prefix_chain(a: Seq<Seq<char>>, b: Seq<Seq<char>>, c: Seq<Seq<char>>)
    requires
        a.is_prefix_of(b),
        b.is_prefix_of(c),
    ensures
        a.is_prefix_of(c),
{
    assert(a =~= c.subrange(0, a.len() as int)) by {
        assert forall|i: int| 0 <= i < a.len() implies a[i] == c[i] by {
            assert(a[i] == b.subrange(0, a.len() as int)[i]);
            assert(b[i] == c.subrange(0, b.len() as int)[i]);
        }
    }
}

/// Encoding a value keeps the table's strings in front and the table aligned, and consistent while it holds at most
/// `u64::MAX` strings.
pub proof fn lemma_value_encoding_table(tree: MetadataTree, table: StringTableView)
    requires
        aligned_table(table),
    ensures
        aligned_table(value_encoding(tree, table).1),
        table.strings.is_prefix_of(value_encoding(tree, table).1.strings),
        consistent_table(table) && value_encoding(tree, table).1.strings.len() <= u64::MAX ==> consistent_table(
            value_encoding(tree, table).1,
        ),
    decreases tree,
{
    match tree {
        MetadataTree::String(string) => lemma_string_id_table(table, string),
        MetadataTree::Array(items) => lemma_values_encoding_table(items, table),
        MetadataTree::Table(entries) => lemma_entries_encoding_table(entries, table),
        _ => {
            assert(table.strings =~= table.strings.subrange(0, table.strings.len() as int));
        },
    }
}

proof fn lemma_values_encoding_table(items: Seq<MetadataTree>, table: StringTableView)
    requires
        aligned_table(table),
    ensures
        aligned_table(values_encoding(items, table).1),
        table.strings.is_prefix_of(values_encoding(items, table).1.strings),
        consistent_table(table) && values_encoding(items, table).1.strings.len() <= u64::MAX ==> consistent_table(
            values_encoding(items, table).1,
        ),
    decreases items,
{
    if items.len() == 0 {
        assert(table.strings =~= table.strings.subrange(0, table.strings.len() as int));
    } else {
        let middle = value_encoding(items[0], table).1;
        let rest = items.subrange(1, items.len() as int);
        lemma_value_encoding_table(items[0], table);
        lemma_values_encoding_table(rest, middle);
        lemma_prefix_chain(table.strings, middle.strings, values_encoding(rest, middle).1.strings);
    }
}

proof fn lemma_entries_encoding_table(entries: Seq<(Seq<char>, MetadataTree)>, table: StringTableView)
    requires
        aligned_table(table),
    ensures
        aligned_table(entries_encoding(entries, table).1),
        table.strings.is_prefix_of(entries_encoding(entries, table).1.strings),
        consistent_table(table) && entries_encoding(entries, table).1.strings.len() <= u64::MAX ==> consistent_table(
            entries_encoding(entries, table).1,
        ),
    decreases entries,
{
    if entries.len() == 0 {
        assert(table.strings =~= table.strings.subrange(0, table.strings.len() as int));
    } else {
        let keyed = string_id(table, entries[0].0).1;
        let middle = value_encoding(entries[0].1, keyed).1;
        let rest = entries.subrange(1, entries.len() as int);
        lemma_string_id_table(table, entries[0].0);
        lemma_value_encoding_table(entries[0].1, keyed);
        lemma_entries_encoding_table(rest, middle);
        lemma_prefix_chain(table.strings, keyed.strings, middle.strings);
        lemma_prefix_chain(table.strings, middle.strings, entries_encoding(rest, middle).1.strings);
    }
}

/// Decoding a metadata value where its encoding was written gives back the value, the strings being looked up in a
/// table that holds the strings of the table after encoding first: for a value that reads back as written, encoded
/// with a table where every string's ID is its position, and a lookup table of fewer than `2^60` strings.
#[verifier::spinoff_prover]
#[verifier::rlimit(50)]
pub proof fn metadata_value_roundtrip(
    tree: MetadataTree,
    table: StringTableView,
    data: Seq<u8>,
    cursor: nat,
    strings: Seq<Seq<char>>,
)
    requires
        restorable_tree(tree),
        consistent_table(table),
        value_encoding(tree, table).1.strings.is_prefix_of(strings),
        strings.len() < vlq_max(),
        cursor + value_encoding(tree, table).0.len() <= data.len(),
        data.subrange(cursor as int, (cursor + value_encoding(tree, table).0.len()) as int) == value_encoding(
            tree,
            table,
        ).0,
    ensures
        value_parse(data, cursor, strings) == Ok::<(MetadataTree, nat), ValueError>(
            (tree, cursor + value_encoding(tree, table).0.len()),
        ),
    decreases tree,
{
    let bytes = value_encoding(tree, table).0;
    let body = cursor + 1;
    lemma_vlq_max();
    assert(data[cursor as int] == bytes[0]);
    match tree {
        MetadataTree::String(string) => {
            let (id, after) = string_id(table, string);
            lemma_string_id_table(table, string);
            let vlq = vlq_bytes(id as nat, 4);
            assert(data.subrange(body as int, (body + vlq.len()) as int) =~= vlq) by {
                assert forall|i: int| 0 <= i < vlq.len() implies data[body + i] == vlq[i] by {
                    assert(data.subrange(cursor as int, (cursor + bytes.len()) as int)[1 + i] == bytes[1 + i]);
                }
            }
            vlq_at_roundtrip(data, body, id as nat);
            assert(strings[id as int] == after.strings[id as int]) by {
                assert(after.strings[id as int] == strings.subrange(0, after.strings.len() as int)[id as int]);
            }
        },
        MetadataTree::Integer(number) => {
            let vlq = vlq_bytes((number as u64) as nat, 4);
            assert((number as u64) as nat == number);
            assert(data.subrange(body as int, (body + vlq.len()) as int) =~= vlq) by {
                assert forall|i: int| 0 <= i < vlq.len() implies data[body + i] == vlq[i] by {
                    assert(data.subrange(cursor as int, (cursor + bytes.len()) as int)[1 + i] == bytes[1 + i]);
                }
            }
            vlq_at_roundtrip(data, body, number as nat);
            assert(((number as u64) as nat as u64) as i64 == number);
        },
        MetadataTree::Boolean(b) => {
            lemma_window_inside(data, body, 1);
            assert(data[body as int] == bytes[1]) by {
                assert(data.subrange(cursor as int, (cursor + bytes.len()) as int)[1] == bytes[1]);
            }
        },
        MetadataTree::Array(items) => {
            let vlq = vlq_bytes(items.len(), 4);
            let (list, after) = values_encoding(items, table);
            assert(bytes == seq![6u8] + vlq + list);
            assert(data.subrange(body as int, (body + vlq.len()) as int) =~= vlq) by {
                assert forall|i: int| 0 <= i < vlq.len() implies data[body + i] == vlq[i] by {
                    assert(data.subrange(cursor as int, (cursor + bytes.len()) as int)[1 + i] == bytes[1 + i]);
                }
            }
            vlq_at_roundtrip(data, body, items.len());
            let start = body + vlq.len();
            assert(data.subrange(start as int, (start + list.len()) as int) =~= list) by {
                assert forall|i: int| 0 <= i < list.len() implies data[start + i] == list[i] by {
                    assert(data.subrange(cursor as int, (cursor + bytes.len()) as int)[1 + vlq.len() + i] == bytes[1
                        + vlq.len() + i]);
                }
            }
            lemma_list_roundtrip(items, table, data, start, strings);
        },
        MetadataTree::Table(entries) => {
            let vlq = vlq_bytes(entries.len(), 4);
            let (list, after) = entries_encoding(entries, table);
            assert(bytes == seq![7u8] + vlq + list);
            assert(data.subrange(body as int, (body + vlq.len()) as int) =~= vlq) by {
                assert forall|i: int| 0 <= i < vlq.len() implies data[body + i] == vlq[i] by {
                    assert(data.subrange(cursor as int, (cursor + bytes.len()) as int)[1 + i] == bytes[1 + i]);
                }
            }
            vlq_at_roundtrip(data, body, entries.len());
            let start = body + vlq.len();
            assert(data.subrange(start as int, (start + list.len()) as int) =~= list) by {
                assert forall|i: int| 0 <= i < list.len() implies data[start + i] == list[i] by {
                    assert(data.subrange(cursor as int, (cursor + bytes.len()) as int)[1 + vlq.len() + i] == bytes[1
                        + vlq.len() + i]);
                }
            }
            assert(Seq::<(Seq<char>, MetadataTree)>::empty() + entries =~= entries);
            lemma_table_roundtrip(entries, table, data, start, strings, Seq::empty());
        },
        _ => {},
    }
}

/// Decoding the items of a list where their encoding was written gives them back.
#[verifier::spinoff_prover]
#[verifier::rlimit(50)]
proof fn lemma_list_roundtrip(
    items: Seq<MetadataTree>,
    table: StringTableView,
    data: Seq<u8>,
    cursor: nat,
    strings: Seq<Seq<char>>,
)
    requires
        restorable_trees(items),
        consistent_table(table),
        values_encoding(items, table).1.strings.is_prefix_of(strings),
        strings.len() < vlq_max(),
        cursor + values_encoding(items, table).0.len() <= data.len(),
        data.subrange(cursor as int, (cursor + values_encoding(items, table).0.len()) as int) == values_encoding(
            items,
            table,
        ).0,
    ensures
        list_parse(data, cursor, items.len(), strings) == Ok::<(Seq<MetadataTree>, nat), ValueError>(
            (items, cursor + values_encoding(items, table).0.len()),
        ),
    decreases items,
{
    if items.len() > 0 {
        let bytes = values_encoding(items, table).0;
        let (first, middle) = value_encoding(items[0], table);
        let rest = items.subrange(1, items.len() as int);
        let (tail, after) = values_encoding(rest, middle);
        lemma_vlq_max();
        lemma_value_encoding_table(items[0], table);
        lemma_values_encoding_table(rest, middle);
        lemma_prefix_chain(middle.strings, after.strings, strings);
        assert(data.subrange(cursor as int, (cursor + first.len()) as int) =~= first) by {
            assert forall|i: int| 0 <= i < first.len() implies data[cursor + i] == first[i] by {
                assert(data.subrange(cursor as int, (cursor + bytes.len()) as int)[i] == bytes[i]);
            }
        }
        let next = cursor + first.len();
        assert(data.subrange(next as int, (next + tail.len()) as int) =~= tail) by {
            assert forall|i: int| 0 <= i < tail.len() implies data[next + i] == tail[i] by {
                assert(data.subrange(cursor as int, (cursor + bytes.len()) as int)[first.len() + i] == bytes[first.len()
                    + i]);
            }
        }
        metadata_value_roundtrip(items[0], table, data, cursor, strings);
        lemma_list_roundtrip(rest, middle, data, next, strings);
        assert(seq![items[0]] + rest =~= items);
    } else {
        assert(items =~= Seq::<MetadataTree>::empty());
    }
}

/// Decoding the entries of a table where their encoding was written, after entries with other keys, gives them back
/// after those entries.
#[verifier::spinoff_prover]
#[verifier::rlimit(50)]
proof fn lemma_table_roundtrip(
    entries: Seq<(Seq<char>, MetadataTree)>,
    table: StringTableView,
    data: Seq<u8>,
    cursor: nat,
    strings: Seq<Seq<char>>,
    before: Seq<(Seq<char>, MetadataTree)>,
)
    requires
        restorable_entries(entries),
        distinct_entry_keys(before + entries),
        consistent_table(table),
        entries_encoding(entries, table).1.strings.is_prefix_of(strings),
        strings.len() < vlq_max(),
        cursor + entries_encoding(entries, table).0.len() <= data.len(),
        data.subrange(cursor as int, (cursor + entries_encoding(entries, table).0.len()) as int) == entries_encoding(
            entries,
            table,
        ).0,
    ensures
        table_parse_into(data, cursor, entries.len(), strings, before) == Ok::<
            (Seq<(Seq<char>, MetadataTree)>, nat),
            ValueError,
        >((before + entries, cursor + entries_encoding(entries, table).0.len())),
    decreases entries,
{
    if entries.len() == 0 {
        assert(before + entries =~= before);
    } else {
        let bytes = entries_encoding(entries, table).0;
        let key = entries[0].0;
        let (id, keyed) = string_id(table, key);
        let (value, middle) = value_encoding(entries[0].1, keyed);
        let rest = entries.subrange(1, entries.len() as int);
        let (tail, after) = entries_encoding(rest, middle);
        let vlq = vlq_bytes(id as nat, 4);
        lemma_vlq_max();
        lemma_string_id_table(table, key);
        lemma_value_encoding_table(entries[0].1, keyed);
        lemma_entries_encoding_table(rest, middle);
        lemma_prefix_chain(middle.strings, after.strings, strings);
        lemma_prefix_chain(keyed.strings, middle.strings, strings);
        assert(bytes == vlq + value + tail);
        assert(data.subrange(cursor as int, (cursor + vlq.len()) as int) =~= vlq) by {
            assert forall|i: int| 0 <= i < vlq.len() implies data[cursor + i] == vlq[i] by {
                assert(data.subrange(cursor as int, (cursor + bytes.len()) as int)[i] == bytes[i]);
            }
        }
        vlq_at_roundtrip(data, cursor, id as nat);
        let key_end = cursor + vlq.len();
        assert(data.subrange(key_end as int, (key_end + value.len()) as int) =~= value) by {
            assert forall|i: int| 0 <= i < value.len() implies data[key_end + i] == value[i] by {
                assert(data.subrange(cursor as int, (cursor + bytes.len()) as int)[vlq.len() + i] == bytes[vlq.len()
                    + i]);
            }
        }
        let next = key_end + value.len();
        assert(data.subrange(next as int, (next + tail.len()) as int) =~= tail) by {
            assert forall|i: int| 0 <= i < tail.len() implies data[next + i] == tail[i] by {
                assert(data.subrange(cursor as int, (cursor + bytes.len()) as int)[vlq.len() + value.len() + i]
                    == bytes[vlq.len() + value.len() + i]);
            }
        }
        assert(strings[id as int] == key) by {
            assert(keyed.strings[id as int] == strings.subrange(0, keyed.strings.len() as int)[id as int]);
        }
        metadata_value_roundtrip(entries[0].1, keyed, data, key_end, strings);
        assert(!(exists|i: int| 0 <= i < before.len() && before[i].0 == key)) by {
            assert forall|i: int| 0 <= i < before.len() implies before[i].0 != key by {
                assert((before + entries)[i].0 != (before + entries)[before.len() as int].0);
            }
        }
        assert(set_entry(before, key, entries[0].1) =~= before.push(entries[0]));
        assert(before.push(entries[0]) + rest =~= before + entries);
        lemma_table_roundtrip(rest, middle, data, next, strings, before.push(entries[0]));
    }
}

} // verus!
