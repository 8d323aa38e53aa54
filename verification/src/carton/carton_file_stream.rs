use vstd::prelude::*;

use super::carton::Carton;
use super::error::CartonError;
use super::file::File;
use super::file_stream::{
    advance, advanced, lemma_vlq_decode_length, lemma_vlq_readable_long, string_from_utf8, vlq_at, window,
    window_bytes, StreamPosition,
};
use super::stream::le_value;
use super::stream::reading::{read_u16, read_u32, read_u64, read_vlq};

verus! {

/// Where a seek counts from.
#[derive(Clone, Copy, Debug, PartialEq, Eq, Structural)]
pub enum SeekFrom {
    /// From the start of the file.
    Start(u64),
    /// Back from the end of the file.
    End(i64),
    /// From the current position.
    Current(i64),
}

/// Why a seek was refused.
#[derive(Clone, Copy, Debug, PartialEq, Eq, Structural)]
pub enum SeekError {
    /// The relative seek leaves the range of positions.
    InvalidRelative(i64),
    /// The relative seek lands beyond the end of the file.
    BeyondEndRelative(i64),
    /// A seek from the end with a positive offset, which lands beyond the end of the file.
    BeyondEndEnd(i64),
    /// The seek from the end lands before the start of the file.
    InvalidEnd(i64),
    /// The seek from the start lands beyond the end of the file.
    BeyondEndStart(u64),
}

/// Reads a file from the carton. All operations are relative to the file's position within the carton; the carton
/// file's own cursor is kept alongside, as reading the carton file moves it.
#[derive(Debug)]
pub struct CartonFileReadStream<'a> {
    pub carton: &'a Carton,
    pub file: &'a File,
    /// The stream's position is virtual and is relative to the position of the file offset in the carton file.
    pub position: StreamPosition,
    /// The carton file's cursor.
    pub cursor: u64,
}

impl<'a> CartonFileReadStream<'a> {
    /// The carton file's bytes.
    pub open spec fn data(&self) -> Seq<u8> {
        self.carton.file_spec()->Some_0
    }

    /// Where the file's stored contents start in the carton file.
    pub open spec fn base(&self) -> nat {
        self.carton.file_table_spec().file_positions_spec().map()[self.file.file_name_spec()] as nat
    }

    /// Where the stream's position lies in the carton file.
    pub open spec fn at(&self) -> nat {
        self.base() + self.position as nat
    }

    /// The carton file's cursor.
    pub closed spec fn cursor_spec(&self) -> nat {
        self.cursor as nat
    }

    /// Whether the stream can read: the carton has its file, and the file table knows where the file starts.
    pub open spec fn readable(&self) -> bool {
        &&& self.carton.file_spec() is Some
        &&& self.carton.file_table_spec().wf()
        &&& self.carton.file_table_spec().file_positions_spec().map().dom().contains(self.file.file_name_spec())
    }

    pub fn new(carton: &'a Carton, file: &'a File) -> (result: Result<Self, CartonError>)
        ensures
            result matches Ok(stream) && stream.carton == carton && stream.file == file && stream.position == 0
                && stream.cursor_spec() == 0,
    {
        Ok(CartonFileReadStream { carton, file, position: 0, cursor: 0 })
    }

    /// Moves the carton file's cursor to the stream's position.
    fn reset_seek(&mut self) -> (result: Result<(), CartonError>)
        requires
            old(self).readable(),
            old(self).base() + old(self).position <= u64::MAX,
        ensures
            result is Ok,
            final(self).carton == old(self).carton,
            final(self).file == old(self).file,
            final(self).position == old(self).position,
            final(self).cursor_spec() == old(self).at(),
    {
        let file_position = match self.carton.file_table.get_file_positions().get(self.file.get_file_name()) {
            Some(position) => position,
            None => 0,
        };
        self.cursor = file_position + self.position;
        Ok(())
    }

    /// Reads `count` bytes at the carton file's cursor, which moves over the bytes that exist.
    fn read_at_cursor(&mut self, count: u64) -> (bytes: Vec<u8>)
        requires
            old(self).readable(),
        ensures
            bytes@ == window(old(self).data(), old(self).cursor_spec(), count as nat),
            final(self).carton == old(self).carton,
            final(self).file == old(self).file,
            final(self).position == old(self).position,
            final(self).cursor_spec() == advance(old(self).data().len(), old(self).cursor_spec(), count as nat),
    {
        match &self.carton.file {
            Some(data) => {
                let bytes = window_bytes(data, self.cursor, count);
                self.cursor = advanced(data.len(), self.cursor, count);
                bytes
            },
            None => Vec::new(),
        }
    }

    /// Reads a byte at the stream's position.
    pub fn read_u8(&mut self) -> (result: Result<(u8, StreamPosition), CartonError>)
        requires
            old(self).readable(),
            old(self).base() + old(self).position + 1 <= u64::MAX,
        ensures
            final(self).carton == old(self).carton,
            final(self).file == old(self).file,
            final(self).position == old(self).position + 1,
            result matches Ok((byte, position)) && byte == window(
                old(self).data(),
                old(self).at(),
                1,
            )[0] && position == final(self).position,
            final(self).cursor_spec() == advance(old(self).data().len(), old(self).at(), 1),
    {
        let _ = self.reset_seek();
        let buffer = self.read_at_cursor(1);
        self.position = self.position + 1;
        Ok((buffer[0], self.position))
    }

    /// Reads a character, one byte, where the carton file's cursor stands.
    pub fn read_char(&mut self) -> (result: Result<(char, StreamPosition), CartonError>)
        requires
            old(self).readable(),
            old(self).position + 1 <= u64::MAX,
        ensures
            final(self).carton == old(self).carton,
            final(self).file == old(self).file,
            final(self).position == old(self).position + 1,
            result matches Ok((character, position)) && character as u32 == window(
                old(self).data(),
                old(self).cursor_spec(),
                1,
            )[0] as u32 && position == final(self).position,
            final(self).cursor_spec() == advance(old(self).data().len(), old(self).cursor_spec(), 1),
    {
        let buffer = self.read_at_cursor(1);
        self.position = self.position + 1;
        Ok((buffer[0] as char, self.position))
    }

    pub fn read_u16(&mut self) -> (result: Result<(u16, StreamPosition), CartonError>)
        requires
            old(self).readable(),
            old(self).base() + old(self).position + 2 <= u64::MAX,
        ensures
            final(self).carton == old(self).carton,
            final(self).file == old(self).file,
            final(self).position == old(self).position + 2,
            result matches Ok((number, position)) && number as nat == le_value(
                window(old(self).data(), old(self).at(), 2),
            ) && position == final(self).position,
            final(self).cursor_spec() == advance(old(self).data().len(), old(self).at(), 2),
    {
        let _ = self.reset_seek();
        let buffer = self.read_at_cursor(2);
        self.position = self.position + 2;
        let (number, _) = read_u16(buffer.as_slice());
        proof {
            assert(buffer@.take(2) =~= buffer@);
        }
        Ok((number, self.position))
    }

    pub fn read_u32(&mut self) -> (result: Result<(u32, StreamPosition), CartonError>)
        requires
            old(self).readable(),
            old(self).base() + old(self).position + 4 <= u64::MAX,
        ensures
            final(self).carton == old(self).carton,
            final(self).file == old(self).file,
            final(self).position == old(self).position + 4,
            result matches Ok((number, position)) && number as nat == le_value(
                window(old(self).data(), old(self).at(), 4),
            ) && position == final(self).position,
            final(self).cursor_spec() == advance(old(self).data().len(), old(self).at(), 4),
    {
        let _ = self.reset_seek();
        let buffer = self.read_at_cursor(4);
        self.position = self.position + 4;
        let (number, _) = read_u32(buffer.as_slice());
        proof {
            assert(buffer@.take(4) =~= buffer@);
        }
        Ok((number, self.position))
    }

    pub fn read_u64(&mut self) -> (result: Result<(u64, StreamPosition), CartonError>)
        requires
            old(self).readable(),
            old(self).base() + old(self).position + 8 <= u64::MAX,
        ensures
            final(self).carton == old(self).carton,
            final(self).file == old(self).file,
            final(self).position == old(self).position + 8,
            result matches Ok((number, position)) && number as nat == le_value(
                window(old(self).data(), old(self).at(), 8),
            ) && position == final(self).position,
            final(self).cursor_spec() == advance(old(self).data().len(), old(self).at(), 8),
    {
        let _ = self.reset_seek();
        let buffer = self.read_at_cursor(8);
        self.position = self.position + 8;
        let (number, _) = read_u64(buffer.as_slice());
        proof {
            assert(buffer@.take(8) =~= buffer@);
        }
        Ok((number, self.position))
    }
}

impl<'a> CartonFileReadStream<'a> {
    /// The carton file's bytes, to read without moving the cursor.
    fn carton_bytes(&self) -> (data: &'a Vec<u8>)
        requires
            self.readable(),
        ensures
            data@ == self.data(),
    {
        match &self.carton.file {
            Some(data) => data,
            None => {
                proof {
                    assert(false);
                }
                &self.carton.file.as_ref().unwrap()
            },
        }
    }

    /// Reads a variable length quantity at the stream's position, one 2-byte group at a time: each group read moves
    /// the position by two, and the position then moves once more by the length of the groups read.
    pub fn read_vlq(&mut self) -> (result: Result<(u64, StreamPosition), CartonError>)
        requires
            old(self).readable(),
            old(self).base() + old(self).position + 16 <= u64::MAX,
        ensures
            final(self).carton == old(self).carton,
            final(self).file == old(self).file,
            ({
                let (value, read) = vlq_at(old(self).data(), old(self).at());
                &&& 2 <= read <= 8
                &&& final(self).position == old(self).position + 2 * read
                &&& result matches Ok((number, position)) && number == value && position == final(self).position
                &&& final(self).cursor_spec() == advance(old(self).data().len(), (old(self).at() + read - 2) as nat, 2)
            }),
    {
        let _ = self.reset_seek();
        let data = self.carton_bytes();
        let bytes = window_bytes(data, self.cursor, 8);
        proof {
            lemma_vlq_readable_long(bytes@, 4);
            lemma_vlq_decode_length(bytes@, 4);
        }
        let (number, rest) = read_vlq(bytes.as_slice());
        let read = (8 - rest.len()) as u64;

        // each group is read at the stream's position, which then moves past it
        self.position = self.position + read;
        self.cursor = advanced(data.len(), self.cursor + read - 2, 2);
        self.position = self.position + read;
        Ok((number, self.position))
    }

    /// Reads `length` bytes at the stream's position.
    pub fn read_vector(&mut self, length: usize) -> (result: Result<(Vec<u8>, StreamPosition), CartonError>)
        requires
            old(self).readable(),
            old(self).base() + old(self).position + length <= u64::MAX,
        ensures
            final(self).carton == old(self).carton,
            final(self).file == old(self).file,
            final(self).position == old(self).position + length,
            result matches Ok((bytes, position)) && bytes@ == window(old(self).data(), old(self).at(), length as nat)
                && position == final(self).position,
            final(self).cursor_spec() == advance(old(self).data().len(), old(self).at(), length as nat),
    {
        let _ = self.reset_seek();
        let buffer = self.read_at_cursor(length as u64);
        self.position = self.position + length as u64;
        Ok((buffer, self.position))
    }

    /// Reads a string at the stream's position: its length as a variable length quantity, then its UTF-8 bytes.
    pub fn read_string(&mut self) -> (result: Result<(String, StreamPosition), CartonError>)
        requires
            old(self).readable(),
            old(self).base() + old(self).position + 16 <= u64::MAX,
            old(self).position + 16 + vlq_at(old(self).data(), old(self).at()).0 <= u64::MAX,
        ensures
            final(self).carton == old(self).carton,
            final(self).file == old(self).file,
            ({
                let (length, read) = vlq_at(old(self).data(), old(self).at());
                let body = advance(old(self).data().len(), (old(self).at() + read - 2) as nat, 2);
                let bytes = window(old(self).data(), body, length);
                &&& final(self).position == old(self).position + 2 * read + length
                &&& final(self).cursor_spec() == advance(old(self).data().len(), body, length)
                &&& vstd::utf8::valid_utf8(bytes) ==> (result matches Ok((string, position)) && string@
                    == vstd::utf8::decode_utf8(bytes) && position == final(self).position)
                &&& !vstd::utf8::valid_utf8(bytes) ==> result matches Err(CartonError::FromUtf8(_))
            }),
    {
        let _ = self.reset_seek();
        let (length, position) = match self.read_vlq() {
            Ok(pair) => pair,
            Err(error) => return Err(error),
        };
        let buffer = self.read_at_cursor(length);
        self.position = position + length;
        match string_from_utf8(buffer) {
            Ok(string) => Ok((string, self.position)),
            Err(error) => Err(CartonError::FromUtf8(error)),
        }
    }

    /// Moves the stream to `position`.
    pub fn seek(&mut self, position: StreamPosition) -> (result: Result<(), CartonError>)
        requires
            old(self).readable(),
            old(self).base() + position <= u64::MAX,
        ensures
            result is Ok,
            final(self).carton == old(self).carton,
            final(self).file == old(self).file,
            final(self).position == position,
            final(self).cursor_spec() == final(self).at(),
    {
        self.position = position;
        self.reset_seek()
    }

    pub fn get_position(&self) -> (result: Result<StreamPosition, CartonError>)
        ensures
            result == Ok::<StreamPosition, CartonError>(self.position),
    {
        Ok(self.position)
    }

    /// Reads the byte at the stream's position; the carton file's cursor then steps back by one.
    pub fn peek(&mut self) -> (result: Result<u8, CartonError>)
        requires
            old(self).readable(),
            old(self).base() + old(self).position <= u64::MAX,
            old(self).at() < old(self).data().len() || old(self).at() > 0,
        ensures
            final(self).carton == old(self).carton,
            final(self).file == old(self).file,
            final(self).position == old(self).position,
            result matches Ok(byte) && byte == window(old(self).data(), old(self).at(), 1)[0],
            final(self).cursor_spec() == if old(self).at() < old(self).data().len() {
                old(self).at()
            } else {
                (old(self).at() - 1) as nat
            },
    {
        let _ = self.reset_seek();
        let buffer = self.read_at_cursor(1);
        self.cursor = self.cursor - 1;
        Ok(buffer[0])
    }

    /// Whether the position is at or past the file's size.
    pub fn is_at_end(&self) -> (result: Result<bool, CartonError>)
        ensures
            result == Ok::<bool, CartonError>(self.position >= self.file.size_spec().1),
    {
        if self.position >= self.file.get_size() {
            Ok(true)
        } else {
            Ok(false)
        }
    }

    /// Reads as many bytes as `buffer` holds, or as the carton file has left, at the stream's position. Returns how
    /// many bytes were read; the rest of the buffer is left as it was.
    pub fn read(&mut self, buffer: &mut Vec<u8>) -> (result: Result<usize, CartonError>)
        requires
            old(self).readable(),
            old(self).base() + old(self).position + old(buffer)@.len() <= u64::MAX,
        ensures
            final(self).carton == old(self).carton,
            final(self).file == old(self).file,
            ({
                let available = if old(self).at() < old(self).data().len() {
                    vstd::math::min(old(buffer)@.len() as int, old(self).data().len() - old(self).at())
                } else {
                    0
                };
                &&& result == Ok::<usize, CartonError>(available as usize)
                &&& available == 0 ==> final(buffer)@ == old(buffer)@
                &&& available > 0 ==> final(buffer)@ == old(self).data().subrange(
                    old(self).at() as int,
                    old(self).at() + available,
                ) + old(buffer)@.skip(available)
                &&& final(self).position == old(self).position + available
                &&& final(self).cursor_spec() == old(self).at() + available
            }),
    {
        let _ = self.reset_seek();
        let data = self.carton_bytes();
        let length = data.len() as u64;
        let count: usize = if self.cursor < length {
            if (buffer.len() as u64) < length - self.cursor {
                buffer.len()
            } else {
                (length - self.cursor) as usize
            }
        } else {
            0
        };
        let start = self.cursor;
        let ghost original = buffer@;
        if count > 0 {
            proof {
                assert(original =~= data@.subrange(start as int, start as int) + original.skip(0));
            }
            for i in 0..count
                invariant
                    count <= original.len(),
                    buffer@.len() == original.len(),
                    start + count <= data@.len(),
                    buffer@ == data@.subrange(start as int, start + i) + original.skip(i as int),
            {
                let len_now = data.len();
                assert(start + i < len_now);
                let index = (start + i as u64) as usize;
                assert(index == start + i);
                let byte = data[index];
                let ghost before = buffer@;
                buffer.set(i, byte);
                proof {
                    assert(before[i as int] == original[i as int]);
                    assert(buffer@ =~= data@.subrange(start as int, start + i + 1) + original.skip(i + 1)) by {
                        assert forall|j: int| 0 <= j < buffer@.len() implies buffer@[j] == (data@.subrange(
                            start as int,
                            start + i + 1,
                        ) + original.skip(i + 1))[j] by {
                            if j < i {
                                assert(buffer@[j] == before[j]);
                            } else if j == i {
                                assert(buffer@[j] == byte);
                            } else {
                                assert(buffer@[j] == before[j]);
                            }
                        }
                    }
                }
            }
        }
        self.cursor = start + count as u64;
        self.position = self.position + count as u64;
        Ok(count)
    }

    /// Moves the stream as `position` says and hands out the new position. A relative seek must not land at or
    /// beyond the end of the file's stored contents in the carton file, counted from the start of the carton file; a
    /// seek from the end adds its offset, which must not be positive, to the file's size; a seek from the start must
    /// not land beyond the end of the stored contents in the carton file.
    pub fn seek_from(&mut self, position: SeekFrom) -> (result: Result<u64, SeekError>)
        requires
            old(self).readable(),
            2 * old(self).base() + old(self).file.size_spec().1 <= u64::MAX,
        ensures
            final(self).carton == old(self).carton,
            final(self).file == old(self).file,
            match position {
                SeekFrom::Current(offset) => {
                    let target = old(self).position + offset;
                    if target < 0 || target > u64::MAX {
                        result == Err::<u64, SeekError>(SeekError::InvalidRelative(offset))
                    } else if target >= old(self).base() + old(self).file.size_spec().1 {
                        result == Err::<u64, SeekError>(SeekError::BeyondEndRelative(offset))
                    } else {
                        result == Ok::<u64, SeekError>(target as u64)
                    }
                },
                SeekFrom::End(offset) => if offset > 0 {
                    result == Err::<u64, SeekError>(SeekError::BeyondEndEnd(offset))
                } else if old(self).file.size_spec().1 + offset < 0 {
                    result == Err::<u64, SeekError>(SeekError::InvalidEnd(offset))
                } else {
                    result == Ok::<u64, SeekError>((old(self).file.size_spec().1 + offset) as u64)
                },
                SeekFrom::Start(target) => if target > old(self).base() + old(self).file.size_spec().1 {
                    result == Err::<u64, SeekError>(SeekError::BeyondEndStart(target))
                } else {
                    result == Ok::<u64, SeekError>(target)
                },
            },
            result matches Ok(target) ==> final(self).position == target && final(self).cursor_spec()
                == final(self).at(),
            result is Err ==> final(self).position == old(self).position && final(self).cursor_spec() == old(
                self,
            ).cursor_spec(),
    {
        let file_position = match self.carton.file_table.get_file_positions().get(self.file.get_file_name()) {
            Some(position) => position,
            None => 0,
        };
        let size = self.file.get_size();
        let new_position = match position {
            SeekFrom::Current(offset) => {
                // relative seek
                let target = self.position as i128 + offset as i128;
                if target < 0 || target > u64::MAX as i128 {
                    return Err(SeekError::InvalidRelative(offset));
                }
                let new_position = target as u64;
                if new_position >= file_position + size {
                    return Err(SeekError::BeyondEndRelative(offset));
                }
                new_position
            },
            SeekFrom::End(offset) => {
                if offset > 0 {
                    return Err(SeekError::BeyondEndEnd(offset));
                }
                let target = size as i128 + offset as i128;
                if target < 0 {
                    return Err(SeekError::InvalidEnd(offset));
                }
                target as u64
            },
            SeekFrom::Start(target) => {
                if target > file_position + size {
                    return Err(SeekError::BeyondEndStart(target));
                }
                target
            },
        };
        self.position = new_position;
        let _ = self.reset_seek();
        Ok(self.position)
    }
}

} // verus!
