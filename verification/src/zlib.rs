//! The block codec: zlib compression and decompression of single blocks,
//! and the header probe the extractor uses to tell compressed bytes from
//! raw ones.

use rayon::prelude::IntoParallelRefIterator;
use rayon::prelude::ParallelIterator;
use std::io::Read;
use std::io::Write;
use vstd::prelude::*;

verus! {

/// The zlib stream an outside encoder produces for `data` at compression
/// level `level` (0 to 9). The result depends on the arguments alone.
pub uninterp spec fn zlib_deflate(level: int, data: Seq<u8>) -> Seq<u8>;

/// What an outside zlib decoder yields for the stream `data`: the decoded
/// bytes, or nothing when it rejects the stream. The result depends on the
/// input bytes alone.
pub uninterp spec fn zlib_inflate(data: Seq<u8>) -> Option<Seq<u8>>;

/// True when `b` begins with a zlib stream header: first byte `0x78` and
/// second byte one of the four valid flag bytes.
pub open spec fn has_zlib_header(b: Seq<u8>) -> bool {
    b.len() >= 2 && b[0] == 0x78 && (b[1] == 0x01 || b[1] == 0x5e || b[1] == 0x9c || b[1] == 0xda)
}

/// Relies on `flate2::write::ZlibEncoder` over a `Vec<u8>` sink: the result
/// is a complete zlib stream for `data`; inflating it yields `data` again;
/// with the default 32 KiB window the stream starts with byte `0x78`
/// followed by one of the four valid flag bytes. Writing into a `Vec` sink
/// cannot fail.
#[verifier::external_body]
fn zlib_compress(data: &[u8], level: u32) -> (r: Vec<u8>)
    requires
        level <= 9,
    ensures
        r@ == zlib_deflate(level as int, data@),
        zlib_inflate(r@) == Some(data@),
        has_zlib_header(r@),
{
    let mut encoder = flate2::write::ZlibEncoder::new(
        Vec::with_capacity(data.len()),
        flate2::Compression::new(level),
    );
    encoder.write_all(data).unwrap();
    encoder.finish().unwrap()
}

/// Relies on `flate2::read::ZlibDecoder`: yields the decoded bytes of the
/// zlib stream `data`, or nothing when the decoder rejects it.
#[verifier::external_body]
fn zlib_decompress(data: &[u8]) -> (r: Option<Vec<u8>>)
    ensures
        match r {
            Some(v) => zlib_inflate(data@) == Some(v@),
            None => zlib_inflate(data@) is None,
        },
{
    let mut decoder = flate2::read::ZlibDecoder::new(data);
    let mut out = Vec::new();
    match decoder.read_to_end(&mut out) {
        Ok(_) => Some(out),
        Err(_) => None,
    }
}

/// Compresses one block with zlib at the given level (0 to 9).
pub fn compress_block(data: &[u8], level: u32) -> (r: Vec<u8>)
    requires
        level <= 9,
    ensures
        r@ == zlib_deflate(level as int, data@),
        zlib_inflate(r@) == Some(data@),
        has_zlib_header(r@),
{
    zlib_compress(data, level)
}

/// Decompresses one zlib stream; `None` when the decoder rejects it.
pub fn decompress_block(data: &[u8]) -> (r: Option<Vec<u8>>)
    ensures
        match r {
            Some(v) => zlib_inflate(data@) == Some(v@),
            None => zlib_inflate(data@) is None,
        },
{
    zlib_decompress(data)
}

/// Relies on `rayon`'s `ParallelIterator::map` collected into a `Vec`,
/// which keeps the order of the source iterator; each element is one call
/// of the verified `compress_block`.
#[verifier::external_body]
pub(crate) fn compress_blocks_parallel(blocks: &Vec<Vec<u8>>, level: u32) -> (r: Vec<Vec<u8>>)
    requires
        level <= 9,
    ensures
        r@.len() == blocks@.len(),
        forall|i: int|
            0 <= i < blocks@.len() ==> {
                &&& (#[trigger] r@[i])@ == zlib_deflate(level as int, blocks@[i]@)
                &&& zlib_inflate(r@[i]@) == Some(blocks@[i]@)
                &&& has_zlib_header(r@[i]@)
            },
{
    blocks.par_iter().map(|b| compress_block(b, level)).collect()
}

/// Decides whether `b` begins with a zlib stream header.
pub fn probe_zlib_header(b: &[u8]) -> (r: bool)
    ensures
        r == has_zlib_header(b@),
{
    b.len() >= 2 && b[0] == 0x78 && (b[1] == 0x01 || b[1] == 0x5e || b[1] == 0x9c || b[1] == 0xda)
}

} // verus!
