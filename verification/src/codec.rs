//! The compression codec applied to every stored object: zlib on the way
//! in, zlib inflation on the way out.

use std::io::Read;
use std::io::Write;
use vstd::prelude::*;

verus! {

/// The zlib stream that compressing a byte string produces.  Compression
/// at the default level is a pure function of the input bytes; nothing
/// more is assumed of the stream itself, only that inflating it gives the
/// input back (see `zlib_decompress`).
pub uninterp spec fn compress_of(s: Seq<u8>) -> Seq<u8>;

/// Relies on `flate2::write::ZlibEncoder`: compressing into a `Vec` sink
/// cannot fail, and the stream produced is a function of the input bytes
/// and the fixed default compression level.
#[verifier::external_body]
pub fn zlib_compress(b: &[u8]) -> (r: Vec<u8>)
    ensures
        r@ == compress_of(b@),
{
    let mut enc = flate2::write::ZlibEncoder::new(Vec::new(), flate2::Compression::default());
    enc.write_all(b).unwrap();
    enc.finish().unwrap()
}

/// Relies on `flate2::read::ZlibDecoder`: inflation is the inverse of
/// `ZlibEncoder`'s compression, so on a stream that compression produced
/// it succeeds and returns exactly the bytes that were compressed.  On
/// any other input nothing is assumed: the call may fail, or return
/// arbitrary bytes.
#[verifier::external_body]
pub fn zlib_decompress(b: &[u8]) -> (r: Result<Vec<u8>, ()>)
    ensures
        r matches Ok(d) ==> forall|orig: Seq<u8>| b@ == #[trigger] compress_of(orig) ==> d@ == orig,
        r is Err ==> forall|orig: Seq<u8>| b@ != #[trigger] compress_of(orig),
{
    let mut dec = flate2::read::ZlibDecoder::new(b);
    let mut out = Vec::new();
    match dec.read_to_end(&mut out) {
        Ok(_) => Ok(out),
        Err(_) => Err(()),
    }
}

} // verus!
