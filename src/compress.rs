//! The general-purpose compressor wrapped round a whole container.
use vstd::prelude::*;

verus! {

/// The compressor that a container's bytes pass through. The choice is not
/// recorded in the bytes: writer and reader must agree on it.
#[derive(Clone, Copy, Debug, PartialEq, Eq)]
pub enum Compression {
    /// The bytes are stored as they are.
    Plain,
    /// A gzip stream (deflate with a gzip header and trailer).
    Gzip,
    /// A zlib stream (deflate with a zlib header and trailer).
    Zlib,
}

/// What flate2's gzip encoder, at its best level, writes for `raw`.
pub uninterp spec fn gzip_encoded(raw: Seq<u8>) -> Seq<u8>;

/// What flate2's zlib encoder, at its best level, writes for `raw`.
pub uninterp spec fn zlib_encoded(raw: Seq<u8>) -> Seq<u8>;

/// What flate2's gzip decoder reads from `packed`; `None` where it fails.
pub uninterp spec fn gzip_decoded(packed: Seq<u8>) -> Option<Seq<u8>>;

/// What flate2's zlib decoder reads from `packed`; `None` where it fails.
pub uninterp spec fn zlib_decoded(packed: Seq<u8>) -> Option<Seq<u8>>;

/// Relies on flate2::write::GzEncoder (new, write_all, finish) over a `Vec`:
/// the gzip stream of `raw` at the best level. Writing into a `Vec` does not
/// fail, and the decoder reads back exactly the bytes that were written.
#[verifier::external_body]
fn gzip_encode(raw: &[u8]) -> (r: Option<Vec<u8>>)
    ensures
        r is Some,
        r matches Some(v) ==> v@ == gzip_encoded(raw@),
        r matches Some(v) ==> gzip_decoded(v@) == Some(raw@),
{
    let mut e = flate2::write::GzEncoder::new(Vec::new(), flate2::Compression::best());
    match std::io::Write::write_all(&mut e, raw) {
        Ok(()) => e.finish().ok(),
        Err(_) => None,
    }
}

/// Relies on flate2::write::ZlibEncoder (new, write_all, finish) over a `Vec`:
/// the zlib stream of `raw` at the best level. Writing into a `Vec` does not
/// fail, and the decoder reads back exactly the bytes that were written.
#[verifier::external_body]
fn zlib_encode(raw: &[u8]) -> (r: Option<Vec<u8>>)
    ensures
        r is Some,
        r matches Some(v) ==> v@ == zlib_encoded(raw@),
        r matches Some(v) ==> zlib_decoded(v@) == Some(raw@),
{
    let mut e = flate2::write::ZlibEncoder::new(Vec::new(), flate2::Compression::best());
    match std::io::Write::write_all(&mut e, raw) {
        Ok(()) => e.finish().ok(),
        Err(_) => None,
    }
}

/// Relies on flate2::read::GzDecoder (new, read_to_end) over a slice: the
/// bytes that the gzip stream `packed` holds, or `None` where it is damaged.
#[verifier::external_body]
fn gzip_decode(packed: &[u8]) -> (r: Option<Vec<u8>>)
    ensures
        match r {
            Some(v) => gzip_decoded(packed@) == Some(v@),
            None => gzip_decoded(packed@) is None,
        },
{
    let mut out = Vec::new();
    match std::io::Read::read_to_end(&mut flate2::read::GzDecoder::new(packed), &mut out) {
        Ok(_) => Some(out),
        Err(_) => None,
    }
}

/// Relies on flate2::read::ZlibDecoder (new, read_to_end) over a slice: the
/// bytes that the zlib stream `packed` holds, or `None` where it is damaged.
#[verifier::external_body]
fn zlib_decode(packed: &[u8]) -> (r: Option<Vec<u8>>)
    ensures
        match r {
            Some(v) => zlib_decoded(packed@) == Some(v@),
            None => zlib_decoded(packed@) is None,
        },
{
    let mut out = Vec::new();
    match std::io::Read::read_to_end(&mut flate2::read::ZlibDecoder::new(packed), &mut out) {
        Ok(_) => Some(out),
        Err(_) => None,
    }
}

/// The bytes that `raw` compresses to with `method`.
pub open spec fn compressed(method: Compression, raw: Seq<u8>) -> Seq<u8> {
    match method {
        Compression::Plain => raw,
        Compression::Gzip => gzip_encoded(raw),
        Compression::Zlib => zlib_encoded(raw),
    }
}

/// The bytes that `packed` decompresses to with `method`; `None` where the
/// stream is damaged.
pub open spec fn decompressed(method: Compression, packed: Seq<u8>) -> Option<Seq<u8>> {
    match method {
        Compression::Plain => Some(packed),
        Compression::Gzip => gzip_decoded(packed),
        Compression::Zlib => zlib_decoded(packed),
    }
}

/// Copies a slice into a new vector.
fn copy_bytes(src: &[u8]) -> (r: Vec<u8>)
    ensures
        r@ == src@,
{
    let mut out: Vec<u8> = Vec::new();
    let mut i: usize = 0;
    while i < src.len()
        invariant
            i <= src@.len(),
            out@ == src@.take(i as int),
        decreases src@.len() - i,
    {
        proof {
            assert(src@.take(i + 1) =~= src@.take(i as int).push(src@[i as int]));
        }
        out.push(src[i]);
        i = i + 1;
    }
    assert(src@.take(i as int) =~= src@);
    out
}

/// Compresses `raw` with `method`; `Plain` hands the bytes back unchanged.
/// Decompressing with the same method gives `raw` back.
pub fn compress(method: Compression, raw: &[u8]) -> (r: Vec<u8>)
    ensures
        r@ == compressed(method, raw@),
        decompressed(method, compressed(method, raw@)) == Some(raw@),
{
    match method {
        Compression::Plain => copy_bytes(raw),
        Compression::Gzip => gzip_encode(raw).unwrap(),
        Compression::Zlib => zlib_encode(raw).unwrap(),
    }
}

/// Decompresses `packed` with `method`; `None` where the stream is damaged.
pub fn decompress(method: Compression, packed: &[u8]) -> (r: Option<Vec<u8>>)
    ensures
        match r {
            Some(v) => decompressed(method, packed@) == Some(v@),
            None => decompressed(method, packed@) is None,
        },
{
    match method {
        Compression::Plain => Some(copy_bytes(packed)),
        Compression::Gzip => gzip_decode(packed),
        Compression::Zlib => zlib_decode(packed),
    }
}

} // verus!
