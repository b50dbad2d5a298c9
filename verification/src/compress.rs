//! Compression of the persisted model artifact through the `flate2` crate,
//! in its fast mode. Gzip is lossless: decompression restores exactly the
//! bytes that were compressed.

use vstd::prelude::*;
use std::io::Read;
use std::io::Write;

verus! {

/// The gzip artifact that `flate2`'s fast-mode encoder produces for given
/// bytes. The result depends on the input bytes alone.
pub uninterp spec fn gzip_of(data: Seq<u8>) -> Seq<u8>;

/// Relies on flate2::write::GzEncoder with Compression::fast: compresses
/// the given bytes into one gzip stream.
#[verifier::external_body]
pub(crate) fn compress(data: &Vec<u8>) -> (r: Vec<u8>)
    ensures
        r@ == gzip_of(data@),
{
    let mut enc = flate2::write::GzEncoder::new(Vec::new(), flate2::Compression::fast());
    match enc.write_all(data).and_then(|_| enc.finish()) {
        Ok(out) => out,
        Err(_) => Vec::new(),
    }
}

/// Relies on flate2::read::GzDecoder: gzip is lossless, so decompressing
/// the encoder's output restores the original bytes, and any readable gzip
/// stream decompresses to the unique bytes it was made from.
#[verifier::external_body]
pub(crate) fn decompress(data: &Vec<u8>) -> (r: Option<Vec<u8>>)
    ensures
        r matches Some(out) ==> (forall|x: Seq<u8>| data@ == gzip_of(x) ==> out@ == x),
        r is None ==> (forall|x: Seq<u8>| data@ != gzip_of(x)),
{
    let mut dec = flate2::read::GzDecoder::new(&data[..]);
    let mut out = Vec::new();
    match dec.read_to_end(&mut out) {
        Ok(_) => Some(out),
        Err(_) => None,
    }
}

} // verus!
