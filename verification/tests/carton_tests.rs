use eggine::carton::carton::{is_carton_content, Carton, CARTON_VERSION};
use eggine::carton::carton_file_stream::{SeekError, SeekFrom};
use eggine::carton::error::CartonError;
use eggine::carton::file::{compress_file_data, decode_file, Compression, File};
use eggine::carton::file_stream::write_utf8_string;
use eggine::carton::file_stream::FileReadStream;
use eggine::carton::file_stream::FileStreamError;
use eggine::carton::file_table::{FileTable, TableID};
use eggine::carton::metadata::{decode_value, encode_value, FileMetadata, FileMetadataError, MetadataValue, TOMLValueType};
use eggine::carton::stream::reading::{read_string, read_u16, read_u32, read_u64, read_vlq};
use eggine::carton::stream::writing::{write_string, write_u16, write_u32, write_u64, write_vlq};
use eggine::carton::string_table::StringTable;

#[test]
fn integers_and_strings_roundtrip() {
    let mut bytes = Vec::new();
    write_u16(0xBEEF, &mut bytes);
    write_u32(0xDEAD_BEEF, &mut bytes);
    write_u64(0x0123_4567_89AB_CDEF, &mut bytes);
    write_vlq(1_000_000, &mut bytes);
    write_string("hello", &mut bytes);
    assert_eq!(&bytes[0..2], &[0xEF, 0xBE]);
    let (a, rest) = read_u16(&bytes);
    let (b, rest) = read_u32(rest);
    let (c, rest) = read_u64(rest);
    let (d, rest) = read_vlq(rest);
    let (e, rest) = read_string(rest);
    assert_eq!((a, b, c, d), (0xBEEF, 0xDEAD_BEEF, 0x0123_4567_89AB_CDEF, 1_000_000));
    assert_eq!(e, "hello");
    assert!(rest.is_empty());
}

#[test]
fn write_string_writes_utf8_bytes() {
    let mut bytes = Vec::new();
    write_string("\u{e9}a", &mut bytes);
    assert_eq!(bytes, vec![3, 0, 0xC3, 0xA9, b'a']);
}

#[test]
fn vlq_uses_two_byte_groups() {
    let mut bytes = Vec::new();
    write_vlq(5, &mut bytes);
    assert_eq!(bytes, vec![5, 0]);
    let mut bytes = Vec::new();
    write_vlq(32768, &mut bytes);
    assert_eq!(bytes, vec![0, 0x80, 1, 0]);
}

#[test]
fn file_read_stream_fills_zeros_past_the_end() {
    let mut stream = FileReadStream::new(vec![1, 2, 3]);
    assert_eq!(stream.read_u16().0, 0x0201);
    assert_eq!(stream.read_u16().0, 3);
    assert!(stream.is_at_end());
    assert_eq!(stream.get_position(), 3);
    stream.seek(1);
    assert_eq!(stream.peek(), 2);
    assert_eq!(stream.read_vector(5).0, vec![2, 3, 0, 0, 0]);
}

#[test]
fn string_table_keeps_first_index() {
    let mut table = StringTable::new();
    assert_eq!(table.insert("kind"), 0);
    assert_eq!(table.insert("music"), 1);
    assert_eq!(table.get("music"), Some(1));
    assert_eq!(table.get("other"), None);
    assert_eq!(table.get_from_index(0).unwrap(), "kind");
    assert!(table.get_from_index(2).is_none());
    assert_eq!(table.len(), 2);

    let mut bytes = Vec::new();
    table.encode_archive(&mut bytes);
    assert_eq!(bytes[0], 2);
    let mut stream = FileReadStream::new(bytes);
    let (decoded, _) = StringTable::decode_archive(&mut stream).unwrap();
    assert_eq!(decoded.get("music"), Some(1));
    assert_eq!(decoded.get_from_index(0).unwrap(), "kind");
}

fn sample_metadata() -> MetadataValue {
    MetadataValue::Table(vec![
        ("kind".to_string(), MetadataValue::String("music".to_string())),
        ("loops".to_string(), MetadataValue::Array(vec![MetadataValue::Integer(3), MetadataValue::Boolean(true)])),
    ])
}

#[test]
fn metadata_value_roundtrip() {
    let mut table = StringTable::new();
    let mut bytes = Vec::new();
    encode_value(&sample_metadata(), &mut bytes, &mut table);
    assert_eq!(bytes[0], 7);
    assert_eq!(table.len(), 3);
    let mut stream = FileReadStream::new(bytes.clone());
    let (value, position) = decode_value(&mut stream, &table).unwrap();
    assert_eq!(position as usize, bytes.len());
    match value {
        MetadataValue::Table(entries) => {
            assert_eq!(entries.len(), 2);
            assert_eq!(entries[0].0, "kind");
            assert!(matches!(&entries[0].1, MetadataValue::String(s) if s == "music"));
            assert_eq!(entries[1].0, "loops");
            match &entries[1].1 {
                MetadataValue::Array(items) => {
                    assert!(matches!(items[0], MetadataValue::Integer(3)));
                    assert!(matches!(items[1], MetadataValue::Boolean(true)));
                },
                _ => panic!("an array was written"),
            }
        },
        _ => panic!("a table was written"),
    }
}

#[test]
fn metadata_errors() {
    let table = StringTable::new();
    let mut stream = FileReadStream::new(vec![1, 4, 0]);
    assert!(matches!(decode_value(&mut stream, &table), Err(CartonError::NotInStringTable(4))));
    let mut stream = FileReadStream::new(vec![9]);
    assert!(matches!(decode_value(&mut stream, &table), Err(CartonError::InvalidTOMLType(9))));
    assert!(matches!(TOMLValueType::from(7), TOMLValueType::TABLE));
    assert!(matches!(TOMLValueType::from(0), TOMLValueType::INVALID));
}

#[test]
fn file_metadata_needs_toml_extension() {
    assert!(matches!(FileMetadata::from_file("song.ogg", Some("a = 1")), Err(FileMetadataError::IncorrectExtension)));
    assert!(matches!(FileMetadata::from_file("ml", Some("a = 1")), Err(FileMetadataError::IncorrectExtension)));
    assert!(matches!(FileMetadata::parse("\u{e9}", "a = 1"), Err(FileMetadataError::IncorrectExtension)));
    let metadata = FileMetadata::from_file("song.ogg.toml", Some("kind = \"music\"\nloop = true")).unwrap();
    assert_eq!(metadata.get_file_name(), "song.ogg");
    match metadata.get_file_metadata_toml() {
        MetadataValue::Table(entries) => {
            assert_eq!(entries.len(), 2);
            assert!(entries.iter().any(|(key, value)| key == "loop" && matches!(value, MetadataValue::Boolean(true))));
        },
        _ => panic!("a TOML document is a table"),
    }
    assert!(matches!(FileMetadata::from_file("a.toml", None), Err(FileMetadataError::FileError)));
    assert!(matches!(FileMetadata::parse("a.toml", "= broken"), Err(FileMetadataError::ParseError(_))));
}

#[test]
fn compression_roundtrip_and_zstd() {
    let mut bytes = Vec::new();
    Compression::ZStd(3, vec![9, 8]).encode(&mut bytes);
    assert_eq!(bytes, vec![1, 0, 3, 2, 0, 9, 8]);
    let mut stream = FileReadStream::new(bytes);
    match Compression::decode(&mut stream).unwrap().0 {
        Compression::ZStd(level, dictionary) => {
            assert_eq!(level, 3);
            assert_eq!(dictionary, vec![9, 8]);
        },
        Compression::Uncompressed => panic!("zstd was written"),
    }
    let mut stream = FileReadStream::new(vec![2, 0]);
    assert!(matches!(Compression::decode(&mut stream), Err(CartonError::InvalidCompression)));

    let data = vec![7u8; 4096];
    assert_eq!(compress_file_data(&Compression::Uncompressed, data.clone()).unwrap(), data);
    let compressed = compress_file_data(&Compression::ZStd(3, vec![]), data.clone()).unwrap();
    assert_ne!(compressed, data);
    assert!(compressed.len() < data.len());
    assert_eq!(zstd::stream::decode_all(&compressed[..]).unwrap(), data);
    let with_dictionary = compress_file_data(&Compression::ZStd(3, vec![7u8; 256]), data.clone()).unwrap();
    assert_ne!(with_dictionary, data);
    assert_ne!(with_dictionary, compressed);
}

#[test]
fn file_and_table_basics() {
    assert!(matches!(File::from_file("missing", false, None, 0), Err(_)));
    let file = File::from_file("a.txt", true, None, 3).unwrap();
    assert_eq!(file.get_file_name(), "a.txt");
    assert_eq!(file.get_size(), 3);
    assert_eq!(file.get_compressed_size(), 3);
    let mut table = FileTable::new();
    table.add_from_disk(file);
    table.update_position("a.txt", 10, 20);
    assert_eq!(table.get_metadata_positions().get("a.txt"), Some(10));
    assert_eq!(table.get_file_positions().get("a.txt"), Some(20));
    assert_eq!(table.get_files().len(), 1);
    assert!(matches!(TableID::from(1), TableID::FileTable));
    assert!(matches!(TableID::from(2), TableID::StringTable));
    assert!(matches!(TableID::from(3), TableID::Invalid));
}

#[test]
fn file_table_and_string_table_read_back() {
    let mut table = FileTable::new();
    table.update_position("a.txt", 10, 20);
    table.update_position("b.txt", 30, 40);
    table.update_position("a.txt", 50, 60);
    let mut bytes = Vec::new();
    table.encode(&mut bytes);
    let mut strings = StringTable::new();
    strings.insert("kind");
    strings.insert("music");
    strings.encode_archive(&mut bytes);
    let length = bytes.len();

    let mut stream = FileReadStream::new(bytes);
    let (decoded, _) = FileTable::decode(&mut stream).unwrap();
    assert_eq!(decoded.get_metadata_positions().len(), 2);
    assert_eq!(decoded.get_metadata_positions().get("a.txt"), Some(50));
    assert_eq!(decoded.get_metadata_positions().get("b.txt"), Some(30));
    let (decoded_strings, position) = StringTable::decode_archive(&mut stream).unwrap();
    assert_eq!(position as usize, length);
    assert_eq!(decoded_strings.get("kind"), Some(0));
    assert_eq!(decoded_strings.get("music"), Some(1));
    assert_eq!(decoded_strings.get_from_index(1).unwrap(), "music");
}

fn sample_carton() -> Carton {
    let mut carton = Carton::default();
    let metadata = FileMetadata::from_toml_value(
        "a.txt",
        MetadataValue::Table(vec![("kind".to_string(), MetadataValue::String("music".to_string()))]),
    );
    carton.add_file(File::from_file("a.txt", true, Some(metadata), 3).unwrap());
    carton
}

#[test]
fn carton_roundtrip_and_file_reads() {
    let mut carton = sample_carton();
    let bytes = carton.encode_mut(vec![vec![1, 2, 3]]).unwrap();
    assert_eq!(&bytes[0..6], b"CARTON");
    assert_eq!(bytes[6], CARTON_VERSION);

    let decoded = Carton::read(bytes).unwrap();
    assert_eq!(decoded.version, CARTON_VERSION);
    assert_eq!(decoded.string_table.get("music"), Some(1));
    let files = decoded.get_file_table().get_files();
    assert_eq!(files.len(), 1);
    assert_eq!(files[0].get_file_name(), "a.txt");
    assert!(files[0].get_metadata().is_some());

    let mut stream = decoded.get_file_data("a.txt").unwrap();
    assert_eq!(stream.read_vector(3).unwrap().0, vec![1, 2, 3]);
    assert_eq!(stream.is_at_end().unwrap(), true);
    stream.seek(1).unwrap();
    assert_eq!(stream.peek().unwrap(), 2);
    assert_eq!(stream.read_u16().unwrap().0, 0x0302);
    let mut buffer = vec![0u8; 8];
    stream.seek(0).unwrap();
    assert_eq!(stream.read(&mut buffer).unwrap(), 8);
    assert_eq!(&buffer[0..3], &[1, 2, 3]);
    assert_eq!(stream.seek_from(SeekFrom::End(-1)).unwrap(), 2);
    assert_eq!(stream.seek_from(SeekFrom::End(0)).unwrap(), 3);
    assert_eq!(stream.seek_from(SeekFrom::End(1)), Err(SeekError::BeyondEndEnd(1)));
    assert_eq!(stream.seek_from(SeekFrom::End(-4)), Err(SeekError::InvalidEnd(-4)));
    assert_eq!(stream.seek_from(SeekFrom::Current(-5)), Err(SeekError::InvalidRelative(-5)));
    assert!(matches!(decoded.get_file_data("b.txt"), Err(CartonError::DecodedFileNotFound)));
    assert!(matches!(carton.get_file_data("a.txt"), Err(CartonError::FileNotOpen)));
}

#[test]
fn carton_without_metadata_strings_has_no_readable_string_table() {
    let mut carton = Carton::default();
    carton.add_file(File::from_file("a.txt", true, None, 3).unwrap());
    let bytes = carton.encode_mut(vec![vec![1, 2, 3]]).unwrap();
    assert!(matches!(Carton::read(bytes), Err(CartonError::UnexpectedTable)));
}

#[test]
fn carton_header_errors() {
    assert!(matches!(Carton::read(b"CARTOX\x02".to_vec()), Err(CartonError::InvalidMagicNumber)));
    assert!(matches!(Carton::read(b"CARTON\x01".to_vec()), Err(CartonError::InvalidVersion)));
}

#[test]
fn decode_file_reads_description() {
    let mut bytes = Vec::new();
    Compression::Uncompressed.encode(&mut bytes);
    write_u64(3, &mut bytes);
    write_u64(4, &mut bytes);
    write_utf8_string("x.bin", &mut bytes);
    let length = bytes.len();
    let mut stream = FileReadStream::new(bytes);
    let (file, position) = decode_file(&mut stream).unwrap();
    assert_eq!(file.file_name, "x.bin");
    assert_eq!(file.size, (3, 4));
    assert_eq!(file.file_offset as usize, length);
    assert_eq!(position as usize, length);
}

#[test]
fn directory_filter_skips_metadata() {
    assert!(is_carton_content("assets/song.ogg"));
    assert!(!is_carton_content("assets/song.ogg.toml"));
    assert!(!is_carton_content("assets/metadata/list"));
}

#[test]
fn file_stream_errors_are_distinct() {
    assert_ne!(FileStreamError::Flush, FileStreamError::NoneFile);
    assert_eq!(format!("{:?}", FileStreamError::NoneFile), "NoneFile");
}

#[test]
fn string_table_inserting_again_gives_a_new_id() {
    let mut table = StringTable::new();
    assert_eq!(table.insert("a"), 0);
    assert_eq!(table.insert("b"), 1);
    assert_eq!(table.len(), 2);
    assert_eq!(table.insert("a"), 2);
    assert_eq!(table.len(), 3);
    assert_eq!(table.get("a"), Some(2));
    assert_eq!(table.get_from_index(0).map(|s| s.as_str()), Some("a"));
    assert_eq!(table.get_from_index(2).map(|s| s.as_str()), Some("a"));
}
