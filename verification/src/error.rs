//! What can go wrong with a store.

use vstd::prelude::*;

verus! {

#[verifier::external_type_specification]
#[verifier::external_body]
pub struct ExIoError(std::io::Error);

#[verifier::external_type_specification]
#[verifier::external_body]
pub struct ExImageError(image::ImageError);

/// Why bytes are not the contents of a store's file.
#[derive(Debug)]
pub enum Malformed {
    /// The compressed stream is damaged.
    Stream(std::io::Error),
    /// The bytes end in the middle of a value.
    Truncated,
    /// A value starts with the given byte, which cannot start the value
    /// that belongs in its place.
    Marker(u8),
    /// A path is not UTF-8.
    Utf8,
    /// A fingerprint has the given number of bytes, not `HASH_BYTES`.
    HashLength(usize),
    /// Bytes follow the last entry.
    Trailing,
}

/// Why a store has no file contents: a length that the format has no room for.
#[derive(Debug)]
pub enum Oversize {
    /// The store has the given number of entries, more than `u32::MAX`.
    Entries(usize),
    /// A path has the given number of bytes, more than `u32::MAX`.
    Path(usize),
}

/// Errors that can happen when dealing with a store.
#[derive(Debug)]
pub enum HashDBError {
    /// The bytes read are not the contents of a store's file.
    DecodeError(Malformed),
    /// The store cannot be written in the file format.
    EncodeError(Oversize),
    /// The file at the given path could not be read as an image.
    ImageError(String, image::ImageError),
    /// Reading or writing failed.
    IOError(std::io::Error),
}

} // verus!
