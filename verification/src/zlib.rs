//! Compression of a store's file: a zlib stream.

use flate2::read::ZlibDecoder;
use flate2::write::ZlibEncoder;
use flate2::Compression;
use std::io::{Read, Write};
use vstd::prelude::*;

verus! {

/// The zlib stream that the encoder writes for the given bytes at its
/// default level; `None` where it reports an error.
pub uninterp spec fn deflated(plain: Seq<u8>) -> Option<Seq<u8>>;

/// The bytes that the decoder reads from a zlib stream; `None` where it
/// reports an error, as it does for bytes that are no zlib stream.
pub uninterp spec fn inflated(stream: Seq<u8>) -> Option<Seq<u8>>;

/// Whether `read` gives back what `stream` was written for: if the encoder
/// wrote `stream` for some bytes, `read` is those bytes.
pub open spec fn reads_back(stream: Seq<u8>, read: Option<Seq<u8>>) -> bool {
    forall|plain: Seq<u8>| deflated(plain) == Some(stream) ==> read == Some(plain)
}

/// The bytes of a result, if it has any.
pub open spec fn bytes_of(res: Result<Vec<u8>, std::io::Error>) -> Option<Seq<u8>> {
    match res {
        Ok(bytes) => Some(bytes@),
        Err(_) => None,
    }
}

/// Compresses the bytes with `flate2::write::ZlibEncoder`, at
/// `Compression::default()`: writes all of them to an encoder over an empty
/// vector and finishes it. The same bytes always give the same stream.
#[verifier::external_body]
pub(crate) fn deflate(plain: &Vec<u8>) -> (res: Result<Vec<u8>, std::io::Error>)
    ensures
        bytes_of(res) == deflated(plain@),
{
    let mut encoder = ZlibEncoder::new(Vec::new(), Compression::default());
    encoder.write_all(plain)?;
    encoder.finish()
}

/// Decompresses the bytes with `flate2::read::ZlibDecoder`, reading to the
/// end of the stream. The same bytes always give the same result, and a
/// stream that the encoder wrote gives the bytes that it was written for.
#[verifier::external_body]
pub(crate) fn inflate(stream: &[u8]) -> (res: Result<Vec<u8>, std::io::Error>)
    ensures
        bytes_of(res) == inflated(stream@),
        reads_back(stream@, bytes_of(res)),
{
    let mut plain = Vec::new();
    ZlibDecoder::new(stream).read_to_end(&mut plain)?;
    Ok(plain)
}

} // verus!
