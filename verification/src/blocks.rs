//! Chunking of a file into 64 KiB blocks, the per-block storage decision
//! (compressed iff strictly smaller), and the block decoding loop that the
//! extractor and the incremental cache share.

use crate::zlib::{
    compress_blocks_parallel, decompress_block, has_zlib_header, probe_zlib_header, zlib_deflate,
    zlib_inflate,
};
use crate::PsarcError;
use vstd::prelude::*;

verus! {

/// The number of blocks needed to hold `len` bytes: `ceil(len / 65536)`.
pub open spec fn block_count(len: nat) -> nat {
    ((len + 65535) / 65536) as nat
}

/// `data` cut into consecutive blocks of 65536 bytes; the final block holds
/// whatever remains and an empty input has no blocks.
pub open spec fn spec_chunks(data: Seq<u8>) -> Seq<Seq<u8>>
    decreases data.len(),
{
    if data.len() == 0 {
        seq![]
    } else if data.len() <= 65536 {
        seq![data]
    } else {
        seq![data.take(65536)] + spec_chunks(data.skip(65536))
    }
}

/// The blocks of `spec_chunks` joined back together.
pub open spec fn concat_chunks(chunks: Seq<Seq<u8>>) -> Seq<u8>
    decreases chunks.len(),
{
    if chunks.len() == 0 {
        seq![]
    } else {
        chunks[0] + concat_chunks(chunks.skip(1))
    }
}

/// Chunking splits without loss: joining the chunks yields the data again,
/// every chunk is nonempty and at most 65536 bytes, all but the last are
/// exactly 65536, and there are `ceil(len / 65536)` of them.
pub proof fn lemma_chunks_props(data: Seq<u8>)
    ensures
        concat_chunks(spec_chunks(data)) == data,
        spec_chunks(data).len() == block_count(data.len()),
        forall|i: int|
            0 <= i < spec_chunks(data).len() ==> 0 < (#[trigger] spec_chunks(data)[i]).len()
                <= 65536,
        forall|i: int|
            0 <= i < spec_chunks(data).len() - 1 ==> (#[trigger] spec_chunks(data)[i]).len()
                == 65536,
    decreases data.len(),
{
    reveal_with_fuel(spec_chunks, 2);
    reveal_with_fuel(concat_chunks, 2);
    if data.len() == 0 {
        assert(spec_chunks(data).len() == 0);
        assert(concat_chunks(spec_chunks(data)) =~= data);
    } else if data.len() <= 65536 {
        assert(spec_chunks(data) =~= seq![data]);
        assert(spec_chunks(data).skip(1) =~= Seq::<Seq<u8>>::empty());
        assert(concat_chunks(spec_chunks(data).skip(1)).len() == 0);
        assert(concat_chunks(spec_chunks(data)) =~= data);
    } else {
        lemma_chunks_props(data.skip(65536));
        let rest = spec_chunks(data.skip(65536));
        assert(spec_chunks(data).skip(1) =~= rest);
        assert(concat_chunks(spec_chunks(data)) =~= data.take(65536) + concat_chunks(rest));
        assert(data.take(65536) + data.skip(65536) =~= data);
        assert(forall|i: int|
            1 <= i < spec_chunks(data).len() ==> spec_chunks(data)[i] == rest[i - 1]);
    }
}

/// True when the zlib form of `b` is strictly smaller than `b` itself, so
/// that the compressed form is what gets stored.
pub open spec fn block_compresses(level: int, b: Seq<u8>) -> bool {
    zlib_deflate(level, b).len() < b.len()
}

/// The bytes stored on disk for block `b`: the zlib stream when it is
/// strictly smaller, else the raw block.
pub open spec fn stored_block(level: int, b: Seq<u8>) -> Seq<u8> {
    if block_compresses(level, b) {
        zlib_deflate(level, b)
    } else {
        b
    }
}

/// The ZSize entry for block `b`: the compressed length for a compressed
/// block; `0` for a raw block of exactly 65536 bytes; the raw length for a
/// raw partial block.
pub open spec fn zsize_of_block(level: int, b: Seq<u8>) -> u16
    recommends
        b.len() <= 65536,
{
    if block_compresses(level, b) {
        zlib_deflate(level, b).len() as u16
    } else if b.len() == 65536 {
        0
    } else {
        b.len() as u16
    }
}

/// The stored bytes of all blocks of a file, in block order.
pub open spec fn stored_file_bytes(level: int, chunks: Seq<Seq<u8>>) -> Seq<u8>
    decreases chunks.len(),
{
    if chunks.len() == 0 {
        seq![]
    } else {
        stored_block(level, chunks[0]) + stored_file_bytes(level, chunks.skip(1))
    }
}

/// The ZSize entries of all blocks of a file, in block order.
pub open spec fn file_zsizes(level: int, chunks: Seq<Seq<u8>>) -> Seq<u16> {
    chunks.map_values(|c: Seq<u8>| zsize_of_block(level, c))
}

/// Extending the encoded prefix by one block appends that block's stored
/// bytes.
pub proof fn lemma_stored_snoc(level: int, chunks: Seq<Seq<u8>>, i: int)
    requires
        0 <= i < chunks.len(),
    ensures
        stored_file_bytes(level, chunks.take(i + 1)) == stored_file_bytes(level, chunks.take(i))
            + stored_block(level, chunks[i]),
    decreases i,
{
    if i == 0 {
        assert(chunks.take(1) =~= seq![chunks[0]]);
        assert(chunks.take(1).skip(1) =~= Seq::<Seq<u8>>::empty());
        assert(stored_file_bytes(level, chunks.take(0)).len() == 0);
        assert(stored_file_bytes(level, chunks.take(1).skip(1)).len() == 0);
        assert(chunks.take(1)[0] == chunks[0]);
        assert(stored_file_bytes(level, chunks.take(1)) =~= stored_block(level, chunks[0]));
        assert(stored_file_bytes(level, chunks.take(1)) =~= stored_file_bytes(
            level,
            chunks.take(0),
        ) + stored_block(level, chunks[0]));
    } else {
        lemma_stored_snoc(level, chunks.skip(1), i - 1);
        assert(chunks.take(i + 1).skip(1) =~= chunks.skip(1).take(i));
        assert(chunks.take(i).skip(1) =~= chunks.skip(1).take(i - 1));
        assert(chunks.take(i + 1)[0] == chunks[0]);
        assert(chunks.take(i)[0] == chunks[0]);
        assert(chunks.skip(1)[i - 1] == chunks[i]);
        assert(stored_file_bytes(level, chunks.take(i + 1)) =~= stored_file_bytes(
            level,
            chunks.take(i),
        ) + stored_block(level, chunks[i]));
    }
}

/// Cuts `data` into consecutive blocks of at most 65536 bytes.
pub fn chunk_data(data: &[u8]) -> (r: Vec<Vec<u8>>)
    ensures
        r@.len() == spec_chunks(data@).len(),
        forall|i: int| 0 <= i < r@.len() ==> (#[trigger] r@[i])@ == spec_chunks(data@)[i],
{
    let len = data.len();
    let mut r: Vec<Vec<u8>> = Vec::new();
    let ghost mut gs: Seq<Seq<u8>> = Seq::empty();
    let mut pos: usize = 0;
    proof {
        assert(data@.skip(0) =~= data@);
        assert(gs + spec_chunks(data@.skip(0)) =~= spec_chunks(data@));
    }
    while pos < len
        invariant
            0 <= pos <= len,
            len == data@.len(),
            gs.len() == r@.len(),
            forall|i: int| 0 <= i < r@.len() ==> (#[trigger] r@[i])@ == gs[i],
            spec_chunks(data@) == gs + spec_chunks(data@.skip(pos as int)),
        decreases len - pos,
    {
        let end = if len - pos <= 65536 {
            len
        } else {
            pos + 65536
        };
        let chunk = vstd::slice::slice_to_vec(vstd::slice::slice_subrange(data, pos, end));
        proof {
            let tail = data@.skip(pos as int);
            if len - pos <= 65536 {
                assert(chunk@ =~= tail);
                assert(spec_chunks(data@.skip(len as int)).len() == 0);
                assert(gs + spec_chunks(tail) =~= (gs + seq![chunk@]) + spec_chunks(data@.skip(
                    len as int,
                )));
            } else {
                assert(chunk@ =~= tail.take(65536));
                assert(tail.skip(65536) =~= data@.skip(pos + 65536));
                assert(gs + spec_chunks(tail) =~= (gs + seq![chunk@]) + spec_chunks(data@.skip(
                    pos + 65536,
                )));
            }
            gs = gs + seq![chunk@];
        }
        r.push(chunk);
        pos = end;
    }
    proof {
        assert(spec_chunks(data@.skip(pos as int)).len() == 0);
        assert(gs =~= spec_chunks(data@));
    }
    r
}

/// Appends all of `b` to `out`.
pub fn append_bytes(out: &mut Vec<u8>, b: &[u8])
    ensures
        final(out)@ == old(out)@ + b@,
{
    let n = b.len();
    let mut i: usize = 0;
    while i < n
        invariant
            0 <= i <= n,
            n == b@.len(),
            out@ == old(out)@ + b@.take(i as int),
        decreases n - i,
    {
        out.push(b[i]);
        assert(out@ =~= old(out)@ + b@.take(i + 1));
        i = i + 1;
    }
    assert(old(out)@ + b@.take(n as int) =~= old(out)@ + b@);
}

/// Compresses every block of `data` in parallel and chooses, per block, the
/// smaller of the compressed and the raw form. Returns the stored bytes of
/// the whole file and its ZSize entries.
pub fn encode_file_blocks(data: &[u8], level: u32) -> (r: (Vec<u8>, Vec<u16>))
    requires
        level <= 9,
    ensures
        r.0@ == stored_file_bytes(level as int, spec_chunks(data@)),
        r.1@ == file_zsizes(level as int, spec_chunks(data@)),
        r.1@.len() == block_count(data@.len()),
{
    let chunks = chunk_data(data);
    let compressed = compress_blocks_parallel(&chunks, level);
    let ghost cs = spec_chunks(data@);
    let n = chunks.len();
    let mut out: Vec<u8> = Vec::new();
    let mut zs: Vec<u16> = Vec::new();
    let mut i: usize = 0;
    proof {
        lemma_chunks_props(data@);
    }
    while i < n
        invariant
            0 <= i <= n,
            n == cs.len(),
            level <= 9,
            n == chunks@.len(),
            forall|j: int| 0 <= j < n ==> (#[trigger] chunks@[j])@ == cs[j],
            compressed@.len() == n,
            forall|j: int|
                0 <= j < n ==> (#[trigger] compressed@[j])@ == zlib_deflate(level as int, cs[j]),
            forall|j: int| 0 <= j < n ==> 0 < (#[trigger] cs[j]).len() <= 65536,
            out@ == stored_file_bytes(level as int, cs.take(i as int)),
            zs@ == file_zsizes(level as int, cs.take(i as int)),
        decreases n - i,
    {
        let comp = &compressed[i];
        let raw = &chunks[i];
        let csize = comp.len();
        let rsize = raw.len();
        if csize < rsize {
            append_bytes(&mut out, comp.as_slice());
            zs.push(csize as u16);
        } else {
            append_bytes(&mut out, raw.as_slice());
            if rsize == 65536 {
                zs.push(0);
            } else {
                zs.push(rsize as u16);
            }
        }
        proof {
            lemma_stored_snoc(level as int, cs, i as int);
            assert(file_zsizes(level as int, cs.take(i + 1)) =~= file_zsizes(
                level as int,
                cs.take(i as int),
            ).push(zsize_of_block(level as int, cs[i as int])));
        }
        i = i + 1;
    }
    assert(cs.take(n as int) =~= cs);
    (out, zs)
}

/// One step of the block decoding loop: what the extractor emits for the
/// stored block `slice`, given the block's ZSize `zv`, the whole entry's
/// uncompressed size `total` and the bytes still owed `remaining`.
pub open spec fn spec_decode_step(
    slice: Seq<u8>,
    zv: u16,
    total: int,
    remaining: int,
    bs: int,
) -> Result<Seq<u8>, PsarcError> {
    let csize = slice.len() as int;
    if csize == total {
        Ok(slice)
    } else if zv == 0 {
        if remaining < bs {
            Ok(slice.take(if remaining < csize {
                remaining
            } else {
                csize
            }))
        } else {
            Ok(slice)
        }
    } else {
        let target = if remaining < bs || csize == bs {
            remaining
        } else {
            bs
        };
        if has_zlib_header(slice) {
            match zlib_inflate(slice) {
                Option::None => Err(PsarcError::InflateFailed),
                Option::Some(d) => Ok(
                    if d.len() > target {
                        d.take(target)
                    } else {
                        d
                    },
                ),
            }
        } else {
            Ok(slice.take(if target < csize {
                target
            } else {
                csize
            }))
        }
    }
}

/// The extractor's block decoding loop over the archive bytes `a`: starting
/// at ZSize index `z` and byte offset `off` with `acc` already produced, it
/// decodes blocks until `total` bytes have been produced, or fails on the
/// first block whose table index or bytes fall outside the archive or whose
/// zlib stream is rejected.
pub open spec fn spec_decode_blocks(
    a: Seq<u8>,
    zs: Seq<u16>,
    z: int,
    off: int,
    total: int,
    remaining: int,
    bs: int,
    acc: Seq<u8>,
) -> Result<Seq<u8>, PsarcError>
    decreases zs.len() - z,
{
    if acc.len() >= total {
        Ok(acc)
    } else if !(0 <= z < zs.len()) {
        Err(PsarcError::CorruptZSizeIndex)
    } else {
        let csize: int = if zs[z] == 0 {
            bs
        } else {
            zs[z] as int
        };
        if off < 0 || off + csize > a.len() {
            Err(PsarcError::CorruptBlockBounds)
        } else {
            match spec_decode_step(a.subrange(off, off + csize), zs[z], total, remaining, bs) {
                Err(e) => Err(e),
                Ok(em) => spec_decode_blocks(
                    a,
                    zs,
                    z + 1,
                    off + csize,
                    total,
                    if remaining >= bs {
                        remaining - bs
                    } else {
                        0
                    },
                    bs,
                    acc + em,
                ),
            }
        }
    }
}

/// What decoding one whole entry yields: the offset must lie inside the
/// archive, then the block loop runs with `total` bytes owed.
pub open spec fn spec_decode_entry(
    a: Seq<u8>,
    zs: Seq<u16>,
    zsize_index: u32,
    offset: u64,
    total: u64,
    bs: u32,
) -> Result<Seq<u8>, PsarcError> {
    if total > 0 && offset >= a.len() {
        Err(PsarcError::CorruptOffset)
    } else {
        spec_decode_blocks(
            a,
            zs,
            zsize_index as int,
            offset as int,
            total as int,
            total as int,
            bs as int,
            seq![],
        )
    }
}

/// Decodes the data of one entry from the archive bytes `a`: follows the
/// ZSize table from `zsize_index`, reading stored blocks at `offset`, until
/// `total` bytes are produced. Raw blocks are copied; blocks that begin
/// with a zlib header are inflated and truncated to the bytes still owed.
pub fn decode_entry_data(
    a: &[u8],
    zs: &Vec<u16>,
    zsize_index: u32,
    offset: u64,
    total: u64,
    block_size: u32,
) -> (r: Result<Vec<u8>, PsarcError>)
    ensures
        match r {
            Ok(v) => spec_decode_entry(a@, zs@, zsize_index, offset, total, block_size) == Ok::<
                Seq<u8>,
                PsarcError,
            >(v@),
            Err(e) => spec_decode_entry(a@, zs@, zsize_index, offset, total, block_size) == Err::<
                Seq<u8>,
                PsarcError,
            >(e),
        },
{
    let bs: u64 = block_size as u64;
    let alen = a.len();
    if total > 0 && offset >= alen as u64 {
        return Err(PsarcError::CorruptOffset);
    }
    if total == 0 {
        return Ok(Vec::new());
    }
    let mut acc: Vec<u8> = Vec::new();
    let mut z: u64 = zsize_index as u64;
    let mut off: u64 = offset;
    let mut remaining: u64 = total;
    let ghost z0 = zsize_index as int;
    let ghost off0 = offset as int;
    loop
        invariant
            alen == a@.len(),
            total > 0,
            offset < a@.len(),
            z0 == zsize_index as int,
            off0 == offset as int,
            bs == block_size as u64,
            spec_decode_blocks(
                a@,
                zs@,
                z0,
                off0,
                total as int,
                total as int,
                bs as int,
                seq![],
            ) == spec_decode_blocks(
                a@,
                zs@,
                z as int,
                off as int,
                total as int,
                remaining as int,
                bs as int,
                acc@,
            ),
        decreases zs@.len() - z + 1,
    {
        if (acc.len() as u64) >= total {
            return Ok(acc);
        }
        if z >= (zs.len() as u64) {
            return Err(PsarcError::CorruptZSizeIndex);
        }
        let zv = zs[z as usize];
        let csize: u64 = if zv == 0 {
            bs
        } else {
            zv as u64
        };
        if off > (alen as u64) || csize > (alen as u64) - off {
            return Err(PsarcError::CorruptBlockBounds);
        }
        let slice = vstd::slice::slice_subrange(a, off as usize, (off + csize) as usize);
        let ghost sl = a@.subrange(off as int, off as int + csize as int);
        let emitted: Vec<u8>;
        if csize == total {
            emitted = vstd::slice::slice_to_vec(slice);
        } else if zv == 0 {
            if remaining < bs {
                let keep = if remaining < csize {
                    remaining
                } else {
                    csize
                };
                emitted = vstd::slice::slice_to_vec(
                    vstd::slice::slice_subrange(slice, 0, keep as usize),
                );
                assert(emitted@ =~= sl.take(keep as int));
            } else {
                emitted = vstd::slice::slice_to_vec(slice);
            }
        } else {
            let target: u64 = if remaining < bs || csize == bs {
                remaining
            } else {
                bs
            };
            if probe_zlib_header(slice) {
                match decompress_block(slice) {
                    Option::None => {
                        return Err(PsarcError::InflateFailed);
                    },
                    Option::Some(mut d) => {
                        if (d.len() as u64) > target {
                            d.truncate(target as usize);
                            assert(d@ =~= zlib_inflate(sl).unwrap().take(target as int));
                        }
                        emitted = d;
                    },
                }
            } else {
                let keep = if target < csize {
                    target
                } else {
                    csize
                };
                emitted = vstd::slice::slice_to_vec(
                    vstd::slice::slice_subrange(slice, 0, keep as usize),
                );
                assert(emitted@ =~= sl.take(keep as int));
            }
        }
        proof {
            assert(spec_decode_step(sl, zv, total as int, remaining as int, bs as int) == Ok::<
                Seq<u8>,
                PsarcError,
            >(emitted@));
        }
        append_bytes(&mut acc, emitted.as_slice());
        z = z + 1;
        off = off + csize;
        remaining = if remaining >= bs {
            remaining - bs
        } else {
            0
        };
    }
}

/// A block that does not shrink under compression is stored raw, byte for
/// byte, with ZSize `0` for a full block and the raw length for a partial
/// one.
pub proof fn lemma_incompressible_stored_raw(level: int, b: Seq<u8>)
    requires
        b.len() <= 65536,
        !block_compresses(level, b),
    ensures
        stored_block(level, b) == b,
        b.len() == 65536 ==> zsize_of_block(level, b) == 0,
        b.len() < 65536 ==> zsize_of_block(level, b) == b.len(),
{
}

/// A file of exactly one block size yields a single ZSize entry: `0` when
/// the block is stored raw, else the compressed length, which is smaller
/// than the block. One byte more yields two entries.
pub proof fn lemma_block_size_edges(level: int, data: Seq<u8>)
    ensures
        data.len() == 65536 ==> {
            let zs = file_zsizes(level, spec_chunks(data));
            &&& zs.len() == 1
            &&& (!block_compresses(level, data) ==> zs[0] == 0)
            &&& (block_compresses(level, data) ==> zs[0] < 65536 && zs[0] == zlib_deflate(
                level,
                data,
            ).len())
        },
        data.len() == 65536 + 1 ==> file_zsizes(level, spec_chunks(data)).len() == 2,
{
    lemma_chunks_props(data);
    if data.len() == 65536 {
        assert(spec_chunks(data) == seq![data]);
        assert(file_zsizes(level, spec_chunks(data))[0] == zsize_of_block(level, data));
        if block_compresses(level, data) {
            assert(zlib_deflate(level, data).len() < 65536);
            assert(zsize_of_block(level, data) == zlib_deflate(level, data).len() as u16);
        }
    }
}


} // verus!
