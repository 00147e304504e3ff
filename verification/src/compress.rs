//! Compression of bodies, done by flate2.

use vstd::prelude::*;
use std::io::Write;
use flate2::write::{DeflateEncoder, GzEncoder};
use flate2::Compression;

verus! {

/// The gzip stream that flate2 produces for `data` at its default level,
/// with the header that `GzEncoder::new` writes.
pub uninterp spec fn gzip_of(data: Seq<u8>) -> Seq<u8>;

/// The raw deflate stream that flate2 produces for `data` at its default
/// level.
pub uninterp spec fn deflate_of(data: Seq<u8>) -> Seq<u8>;

/// Runs `data` through flate2's `GzEncoder` (`new`, `write_all`, `finish`)
/// on an in-memory buffer at `Compression::default()`. The encoder's
/// header holds no time stamp, file name or host marker, so the stream is
/// a function of `data` alone; the contract gives it the name `gzip_of`.
/// Writing to a vector does not fail.
#[verifier::external_body]
pub(crate) fn gzip(data: &[u8]) -> (out: Vec<u8>)
    ensures
        out@ == gzip_of(data@),
{
    let mut encoder = GzEncoder::new(Vec::new(), Compression::default());
    encoder.write_all(data).unwrap();
    encoder.finish().unwrap()
}

/// Runs `data` through flate2's `DeflateEncoder` (`new`, `write_all`,
/// `finish`) on an in-memory buffer at `Compression::default()`. The
/// stream is a function of `data` alone; the contract gives it the name
/// `deflate_of`. Writing to a vector does not fail.
#[verifier::external_body]
pub(crate) fn deflate(data: &[u8]) -> (out: Vec<u8>)
    ensures
        out@ == deflate_of(data@),
{
    let mut encoder = DeflateEncoder::new(Vec::new(), Compression::default());
    encoder.write_all(data).unwrap();
    encoder.finish().unwrap()
}

} // verus!
