//! The bytes of a snapshot file: the encoded aggregate, compressed.
//!
//! Compressing and decompressing is zstd's work. Reading bytes that are
//! not a compressed frame is reported as corrupted data.

use crate::error::ErrorKind;
use crate::names::last_dot;
use vstd::prelude::*;
use vstd::string::StringExecFns;

verus! {

/// The level at which snapshots are compressed.
pub const COMPRESSION_LEVEL: i32 = 1;

/// What `zstd::stream::decode_all` makes of some bytes: the data they
/// hold, or `None` where it reports an error.
pub uninterp spec fn zstd_decoded(bytes: Seq<u8>) -> Option<Seq<u8>>;

/// Calls `zstd::stream::decode_all` on the bytes. Claimed: the outcome is
/// the named function of the bytes.
#[verifier::external_body]
fn zstd_decode_all(bytes: &[u8]) -> (out: Result<Vec<u8>, std::io::Error>)
    ensures
        match out {
            Ok(data) => zstd_decoded(bytes@) == Some(data@),
            Err(_) => zstd_decoded(bytes@).is_none(),
        },
{
    zstd::stream::decode_all(bytes)
}

/// What `zstd::stream::encode_all` makes of some bytes at a level: the
/// compressed frame, or `None` where it reports an error.
pub uninterp spec fn zstd_encoded(bytes: Seq<u8>, level: int) -> Option<Seq<u8>>;

/// Calls `zstd::stream::encode_all` on the bytes. Claimed: the outcome is
/// the named function of the bytes and the level, and decoding a frame
/// that it has made gives the bytes back (the compression is lossless).
#[verifier::external_body]
fn zstd_encode_all(bytes: &[u8], level: i32) -> (out: Result<Vec<u8>, std::io::Error>)
    ensures
        match out {
            Ok(frame) => zstd_encoded(bytes@, level as int) == Some(frame@) && zstd_decoded(frame@)
                == Some(bytes@),
            Err(_) => zstd_encoded(bytes@, level as int).is_none(),
        },
{
    zstd::stream::encode_all(bytes, level)
}

/// The payload that a snapshot's bytes hold, or the report that they are
/// corrupted.
pub open spec fn decoded(bytes: Seq<u8>) -> Result<Seq<u8>, ErrorKind> {
    match zstd_decoded(bytes) {
        Some(payload) => Ok(payload),
        None => Err(ErrorKind::DataIsCorrupted),
    }
}

/// What an outcome of decoding holds.
pub open spec fn bytes_view(outcome: Result<Vec<u8>, Box<ErrorKind>>) -> Result<
    Seq<u8>,
    ErrorKind,
> {
    match outcome {
        Ok(bytes) => Ok(bytes@),
        Err(error) => Err(*error),
    }
}

/// The bytes of a snapshot that holds `payload`: the frame that the
/// compressor makes of it at [`COMPRESSION_LEVEL`]. Decoding them gives
/// the payload back. Where the compressor makes no frame, that is
/// reported as an I/O failure.
pub fn encode(payload: &[u8]) -> (bytes: Result<Vec<u8>, Box<ErrorKind>>)
    ensures
        match bytes {
            Ok(frame) => zstd_encoded(payload@, COMPRESSION_LEVEL as int) == Some(frame@)
                && decoded(frame@) == Ok::<Seq<u8>, ErrorKind>(payload@),
            Err(error) => zstd_encoded(payload@, COMPRESSION_LEVEL as int).is_none() && (*error
                is NotFound || *error is UnexpectedIoError),
        },
{
    match zstd_encode_all(payload, COMPRESSION_LEVEL) {
        Ok(frame) => Ok(frame),
        Err(error) => {
            let error: Box<ErrorKind> = From::from(error);
            Err(error)
        },
    }
}

/// The payload of a snapshot's bytes. Bytes that do not decode are
/// reported as `DataIsCorrupted`, whatever they are.
pub fn decode(bytes: &[u8]) -> (payload: Result<Vec<u8>, Box<ErrorKind>>)
    ensures
        bytes_view(payload) == decoded(bytes@),
{
    match zstd_decode_all(bytes) {
        Ok(payload) => Ok(payload),
        Err(_) => Err(Box::new(ErrorKind::DataIsCorrupted)),
    }
}

/// What a value read from a payload is worth: a payload that does not hold
/// a value of the expected kind is corrupted data.
pub fn parsed_or_corrupted<T>(parsed: Option<T>) -> (value: Result<T, Box<ErrorKind>>)
    ensures
        match value {
            Ok(v) => parsed == Some(v),
            Err(error) => parsed.is_none() && *error == ErrorKind::DataIsCorrupted,
        },
{
    match parsed {
        Some(v) => Ok(v),
        None => Err(Box::new(ErrorKind::DataIsCorrupted)),
    }
}

/// The name of the file that a snapshot is written to before it takes its
/// place: the name with `.tmp` added to its extension.
pub open spec fn temp_name_of(name: Seq<char>) -> Seq<char> {
    if last_dot(name) > 0 {
        name + ".tmp"@
    } else {
        name + "..tmp"@
    }
}

/// The name of the file that a snapshot is written to before it is
/// renamed to `name`, so that `name` never holds half a snapshot.
pub fn temp_name(name: &str) -> (temp: String)
    ensures
        temp@ == temp_name_of(name@),
{
    let n = name.unicode_len();
    let mut i = n;
    proof {
        crate::names::lemma_last_dot(name@);
    }
    while i > 0
        invariant
            i <= n,
            n == name@.len(),
            forall|j: int| i <= j < n ==> name@[j] != '.',
        decreases i,
    {
        if name.get_char(i - 1) == '.' {
            proof {
                crate::names::lemma_last_dot(name@);
            }
            if i - 1 > 0 {
                return name.to_owned().concat(".tmp");
            } else {
                return name.to_owned().concat("..tmp");
            }
        }
        i -= 1;
    }
    proof {
        crate::names::lemma_last_dot(name@);
    }
    name.to_owned().concat("..tmp")
}

} // verus!
