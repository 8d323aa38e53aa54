use vstd::prelude::*;

verus! {

/// The error that building a `String` from bytes that are not UTF-8 gives.
#[verifier::external_type_specification]
#[verifier::external_body]
pub struct ExFromUtf8Error(std::string::FromUtf8Error);

#[derive(Debug)]
pub enum CartonError {
    DecodedFileNotFound,
    FileError(std::io::Error),
    FileNotOpen,
    FromUtf8(std::string::FromUtf8Error),
    InvalidCompression,
    InvalidMagicNumber,
    InvalidTOMLType(u8),
    InvalidVersion,
    NoFile,
    NotInStringTable(u64),
    UnexpectedFileName,
    UnexpectedTable,
}

} // verus!
