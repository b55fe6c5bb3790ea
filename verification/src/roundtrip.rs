//! The laws that tie pack and extract together: an archive packed from a
//! list of files parses back to the model it was built from, every encoded
//! entry decodes to its original bytes, and the whole extraction returns
//! the packed files.

use crate::blocks::{
    block_compresses, concat_chunks, file_zsizes, lemma_chunks_props, spec_chunks,
    spec_decode_blocks, spec_decode_entry, spec_decode_step, stored_block, stored_file_bytes,
    zsize_of_block,
};
use crate::hash::name_hash_of;
use crate::pack::{
    all_data, all_zsizes, data_before, lemma_all_snoc, spec_pack_bytes, spec_pack_entries,
    spec_pack_fits, spec_pack_toc_length, zsizes_before, PackedFileModel,
};
use crate::zlib::{has_zlib_header, zlib_deflate, zlib_inflate};
use crate::PsarcError;
use vstd::prelude::*;

verus! {

/// What the zlib wrappers promise of every call on the blocks of `data`
/// at `level`: a compressed block inflates back to the block, and its
/// stream starts with a zlib header.
pub open spec fn codec_facts(level: int, data: Seq<u8>) -> bool {
    forall|k: int|
        0 <= k < spec_chunks(data).len() ==> {
            let b = #[trigger] spec_chunks(data)[k];
            zlib_inflate(zlib_deflate(level, b)) == Some(b) && has_zlib_header(
                zlib_deflate(level, b),
            ) && zlib_deflate(level, b).len() >= 2
        }
}

/// True when decoding cannot mistake a raw block for a compressed one:
/// when a file of several blocks ends in a partial block that is stored
/// raw, those raw bytes must not begin with a zlib header.
pub open spec fn decode_safe(level: int, data: Seq<u8>) -> bool {
    {
        let cs = spec_chunks(data);
        cs.len() >= 2 && cs.last().len() < 65536 && !block_compresses(level, cs.last())
            ==> !has_zlib_header(cs.last())
    }
}

/// The concatenations split at any point.
pub proof fn lemma_all_split(pfs: Seq<PackedFileModel>, k: int)
    requires
        0 <= k <= pfs.len(),
    ensures
        all_zsizes(pfs) == all_zsizes(pfs.take(k)) + all_zsizes(pfs.skip(k)),
        all_data(pfs) == all_data(pfs.take(k)) + all_data(pfs.skip(k)),
    decreases k,
{
    if k == 0 {
        assert(pfs.take(0).len() == 0);
        assert(pfs.skip(0) =~= pfs);
        assert(all_zsizes(pfs) =~= all_zsizes(pfs.take(0)) + all_zsizes(pfs.skip(0)));
        assert(all_data(pfs) =~= all_data(pfs.take(0)) + all_data(pfs.skip(0)));
    } else {
        lemma_all_split(pfs, k - 1);
        lemma_all_snoc(pfs, k - 1);
        let s1 = pfs.skip(k - 1);
        assert(s1.len() > 0);
        assert(s1[0] == pfs[k - 1]);
        assert(s1.skip(1) =~= pfs.skip(k));
        assert(all_zsizes(s1) == pfs[k - 1].zsizes + all_zsizes(pfs.skip(k)));
        assert(all_data(s1) == pfs[k - 1].data + all_data(pfs.skip(k)));
        assert(all_zsizes(pfs) =~= all_zsizes(pfs.take(k)) + all_zsizes(pfs.skip(k)));
        assert(all_data(pfs) =~= all_data(pfs.take(k)) + all_data(pfs.skip(k)));
    }
}

/// Decoding the stored blocks of a chunked file yields the chunks joined
/// back together: each block sits in the archive at its position, its
/// ZSize entry describes it, and the decoder walks them in order.
pub proof fn lemma_decode_encoded(
    a: Seq<u8>,
    zs: Seq<u16>,
    level: int,
    cs: Seq<Seq<u8>>,
    z: int,
    off: int,
    total: int,
    acc: Seq<u8>,
)
    requires
        0 <= z,
        0 <= off,
        z + cs.len() <= zs.len(),
        forall|k: int| 0 <= k < cs.len() ==> 0 < (#[trigger] cs[k]).len() <= 65536,
        forall|k: int| 0 <= k < cs.len() - 1 ==> (#[trigger] cs[k]).len() == 65536,
        forall|k: int|
            0 <= k < cs.len() ==> zs[z + k] == zsize_of_block(level, #[trigger] cs[k]),
        off + stored_file_bytes(level, cs).len() <= a.len(),
        a.subrange(off, off + stored_file_bytes(level, cs).len() as int) == stored_file_bytes(
            level,
            cs,
        ),
        total == acc.len() + concat_chunks(cs).len(),
        forall|k: int|
            0 <= k < cs.len() ==> {
                let b = #[trigger] cs[k];
                block_compresses(level, b) ==> zlib_inflate(zlib_deflate(level, b)) == Some(b)
                    && has_zlib_header(zlib_deflate(level, b)) && zlib_deflate(level, b).len() >= 2
            },
        cs.len() >= 1 && cs.last().len() < 65536 && !block_compresses(level, cs.last()) && total
            != cs.last().len() ==> !has_zlib_header(cs.last()),
    ensures
        spec_decode_blocks(a, zs, z, off, total, total - acc.len(), 65536, acc) == Ok::<
            Seq<u8>,
            PsarcError,
        >(acc + concat_chunks(cs)),
    decreases cs.len(),
{
    if cs.len() == 0 {
        assert(concat_chunks(cs).len() == 0);
        assert(acc + concat_chunks(cs) =~= acc);
    } else {
        let b = cs[0];
        let sb = stored_block(level, b);
        let zv = zsize_of_block(level, b);
        let rest = cs.skip(1);
        let remaining = total - acc.len();
        assert(stored_file_bytes(level, cs) == sb + stored_file_bytes(level, rest));
        assert(concat_chunks(cs) == b + concat_chunks(rest));
        assert(concat_chunks(cs).len() > 0) by {
            lemma_concat_nonempty(cs);
        }
        assert(acc.len() < total);
        // The block's stored bytes sit first in the region.
        assert(a.subrange(off, off + sb.len() as int) =~= sb);
        let csize: int = if zv == 0 {
            65536
        } else {
            zv as int
        };
        assert(sb.len() == csize) by {
            if block_compresses(level, b) {
                assert(zv == zlib_deflate(level, b).len() as u16);
                assert(zlib_deflate(level, b).len() < b.len() <= 65536);
                assert(zv != 0) by {
                    assert(zlib_deflate(level, b).len() >= 2);
                }
            } else {
                if b.len() == 65536 {
                    assert(zv == 0);
                } else {
                    assert(zv == b.len() as u16);
                    assert(zv != 0);
                }
            }
        }
        assert(0 <= z < zs.len());
        assert(zs[z] == zv);
        assert(off + csize <= a.len());
        let slice = a.subrange(off, off + csize);
        assert(slice =~= sb);
        // The decoder emits exactly this chunk.
        assert(spec_decode_step(slice, zv, total, remaining, 65536) == Ok::<Seq<u8>, PsarcError>(
            b,
        )) by {
            assert(cs.len() == 1 ==> cs.last() == b);
            lemma_decode_step_encoded(slice, b, level, zv, total, remaining, cs);
        }
        // Set up the recursive call on the rest.
        let acc2 = acc + b;
        let off2 = off + csize;
        assert(a.subrange(off2, off2 + stored_file_bytes(level, rest).len() as int)
            =~= stored_file_bytes(level, rest)) by {
            assert(a.subrange(off, off + stored_file_bytes(level, cs).len() as int)
                == stored_file_bytes(level, cs));
            assert(forall|w: int|
                0 <= w < stored_file_bytes(level, rest).len() ==> a.subrange(
                    off,
                    off + stored_file_bytes(level, cs).len() as int,
                )[sb.len() + w] == #[trigger] stored_file_bytes(level, rest)[w]);
        }
        assert(forall|k: int|
            0 <= k < rest.len() ==> zs[z + 1 + k] == zsize_of_block(level, #[trigger] rest[k]))
            by {
            assert(forall|k: int| 0 <= k < rest.len() ==> #[trigger] rest[k] == cs[k + 1]);
        }
        assert(forall|k: int| 0 <= k < rest.len() ==> 0 < (#[trigger] rest[k]).len() <= 65536);
        assert(forall|k: int| 0 <= k < rest.len() - 1 ==> (#[trigger] rest[k]).len() == 65536);
        if rest.len() >= 1 {
            assert(rest.last() == cs.last());
        }
        assert(total == acc2.len() + concat_chunks(rest).len());
        if rest.len() > 0 {
            assert(concat_chunks(rest).len() > 0) by {
                lemma_concat_nonempty(rest);
            }
        }
        lemma_decode_encoded(a, zs, level, rest, z + 1, off2, total, acc2);
        let rem2 = if remaining >= 65536 {
            remaining - 65536
        } else {
            0
        };
        assert(rem2 == total - acc2.len()) by {
            if cs.len() == 1 {
                assert(concat_chunks(rest).len() == 0);
                assert(remaining == b.len());
            } else {
                assert(b.len() == 65536);
                assert(remaining >= 65536) by {
                    assert(concat_chunks(rest).len() > 0);
                }
            }
        }
        assert(acc2 + concat_chunks(rest) =~= acc + concat_chunks(cs));
    }
}

/// One decode step on an encoded block emits the block.
proof fn lemma_decode_step_encoded(
    slice: Seq<u8>,
    b: Seq<u8>,
    level: int,
    zv: u16,
    total: int,
    remaining: int,
    cs: Seq<Seq<u8>>,
)
    requires
        cs.len() >= 1,
        cs[0] == b,
        slice == stored_block(level, b),
        zv == zsize_of_block(level, b),
        forall|k: int| 0 <= k < cs.len() ==> 0 < (#[trigger] cs[k]).len() <= 65536,
        cs.len() >= 2 ==> b.len() == 65536,
        total >= concat_chunks(cs).len(),
        remaining == concat_chunks(cs).len(),
        remaining <= total,
        block_compresses(level, b) ==> zlib_inflate(zlib_deflate(level, b)) == Some(b)
            && has_zlib_header(zlib_deflate(level, b)) && zlib_deflate(level, b).len() >= 2,
        cs.len() == 1 && b.len() < 65536 && !block_compresses(level, b) && total != b.len()
            ==> !has_zlib_header(b),
    ensures
        spec_decode_step(slice, zv, total, remaining, 65536) == Ok::<Seq<u8>, PsarcError>(b),
{
    let csize = slice.len() as int;
    assert(concat_chunks(cs) == b + concat_chunks(cs.skip(1)));
    if cs.len() == 1 {
        assert(cs.skip(1).len() == 0);
        assert(remaining == b.len());
    } else {
        assert(concat_chunks(cs.skip(1)).len() > 0) by {
            assert(forall|k: int|
                0 <= k < cs.skip(1).len() ==> 0 < (#[trigger] cs.skip(1)[k]).len());
            lemma_concat_nonempty(cs.skip(1));
        }
        assert(remaining > 65536);
    }
    if block_compresses(level, b) {
        assert(slice == zlib_deflate(level, b));
        assert(csize < b.len());
        if csize == total {
            assert(false) by {
                assert(total >= remaining);
                assert(remaining >= b.len());
            }
        }
        assert(zv != 0);
        assert(has_zlib_header(slice));
        let target = if remaining < 65536 || csize == 65536 {
            remaining
        } else {
            65536
        };
        assert(csize < 65536);
        if cs.len() == 1 {
            assert(target == remaining || target == 65536);
            assert(zlib_inflate(slice) == Some(b));
            if b.len() > target {
                assert(false);
            }
            assert(spec_decode_step(slice, zv, total, remaining, 65536) == Ok::<
                Seq<u8>,
                PsarcError,
            >(b));
        } else {
            assert(b.len() == 65536);
            assert(remaining > 65536);
            assert(target == 65536);
            assert(zlib_inflate(slice) == Some(b));
            assert(spec_decode_step(slice, zv, total, remaining, 65536) == Ok::<
                Seq<u8>,
                PsarcError,
            >(b));
        }
    } else {
        assert(slice == b);
        if b.len() == 65536 {
            assert(zv == 0);
            if csize == total {
                assert(spec_decode_step(slice, zv, total, remaining, 65536) == Ok::<
                    Seq<u8>,
                    PsarcError,
                >(b));
            } else {
                assert(remaining >= 65536);
                assert(spec_decode_step(slice, zv, total, remaining, 65536) == Ok::<
                    Seq<u8>,
                    PsarcError,
                >(b));
            }
        } else {
            assert(cs.len() == 1);
            assert(zv == b.len() as u16);
            assert(zv != 0);
            assert(remaining == b.len());
            if csize == total {
                assert(spec_decode_step(slice, zv, total, remaining, 65536) == Ok::<
                    Seq<u8>,
                    PsarcError,
                >(b));
            } else {
                assert(!has_zlib_header(b));
                let target = if remaining < 65536 || csize == 65536 {
                    remaining
                } else {
                    65536
                };
                assert(target == remaining);
                assert(slice.take(if target < csize {
                    target
                } else {
                    csize
                }) =~= b);
                assert(spec_decode_step(slice, zv, total, remaining, 65536) == Ok::<
                    Seq<u8>,
                    PsarcError,
                >(b));
            }
        }
    }
}

/// A list of nonempty chunks joins to a nonempty sequence.
proof fn lemma_concat_nonempty(cs: Seq<Seq<u8>>)
    requires
        cs.len() >= 1,
        forall|k: int| 0 <= k < cs.len() ==> 0 < (#[trigger] cs[k]).len(),
    ensures
        concat_chunks(cs).len() > 0,
{
    assert(concat_chunks(cs) == cs[0] + concat_chunks(cs.skip(1)));
}

/// The serialized entry table splits at any entry.
pub proof fn lemma_entries_split(es: Seq<crate::toc::EntryModel>, k: int)
    requires
        0 <= k <= es.len(),
    ensures
        crate::toc::spec_entries_bytes(es) == crate::toc::spec_entries_bytes(es.take(k))
            + crate::toc::spec_entries_bytes(es.skip(k)),
    decreases k,
{
    if k == 0 {
        assert(es.take(0).len() == 0);
        assert(es.skip(0) =~= es);
        assert(crate::toc::spec_entries_bytes(es) =~= crate::toc::spec_entries_bytes(es.take(0))
            + crate::toc::spec_entries_bytes(es.skip(0)));
    } else {
        lemma_entries_split(es, k - 1);
        crate::toc::lemma_entries_bytes_snoc(es, k - 1);
        let s1 = es.skip(k - 1);
        assert(s1.len() > 0);
        assert(s1[0] == es[k - 1]);
        assert(s1.skip(1) =~= es.skip(k));
        assert(crate::toc::spec_entries_bytes(s1) == crate::toc::spec_entry_bytes(es[k - 1])
            + crate::toc::spec_entries_bytes(es.skip(k)));
        assert(crate::toc::spec_entries_bytes(es) =~= crate::toc::spec_entries_bytes(es.take(k))
            + crate::toc::spec_entries_bytes(es.skip(k)));
    }
}

/// The serialized ZSize table splits at any value.
pub proof fn lemma_zsizes_split(zs: Seq<u16>, k: int)
    requires
        0 <= k <= zs.len(),
    ensures
        crate::toc::spec_zsizes_bytes(zs) == crate::toc::spec_zsizes_bytes(zs.take(k))
            + crate::toc::spec_zsizes_bytes(zs.skip(k)),
    decreases k,
{
    if k == 0 {
        assert(zs.take(0).len() == 0);
        assert(zs.skip(0) =~= zs);
        assert(crate::toc::spec_zsizes_bytes(zs) =~= crate::toc::spec_zsizes_bytes(zs.take(0))
            + crate::toc::spec_zsizes_bytes(zs.skip(0)));
    } else {
        lemma_zsizes_split(zs, k - 1);
        crate::toc::lemma_zsizes_bytes_snoc(zs, k - 1);
        let s1 = zs.skip(k - 1);
        assert(s1.len() > 0);
        assert(s1[0] == zs[k - 1]);
        assert(s1.skip(1) =~= zs.skip(k));
        assert(crate::toc::spec_zsizes_bytes(s1) == crate::wire::be16_bytes(zs[k - 1])
            + crate::toc::spec_zsizes_bytes(zs.skip(k)));
        assert(crate::toc::spec_zsizes_bytes(zs) =~= crate::toc::spec_zsizes_bytes(zs.take(k))
            + crate::toc::spec_zsizes_bytes(zs.skip(k)));
    }
}

/// Every entry of a packed archive fits the wire format.
pub proof fn lemma_pack_entries_wf(
    pfs: Seq<PackedFileModel>,
    man_zs: Seq<u16>,
    man_dlen: int,
    man_size: int,
)
    requires
        spec_pack_fits(pfs, man_zs, man_dlen, man_size),
        man_dlen >= 0,
        0 <= man_size,
        forall|i: int| 0 <= i < pfs.len() ==> (#[trigger] pfs[i]).name_hash.len() == 16,
    ensures
        ({
            let es = spec_pack_entries(pfs, man_zs, man_dlen, man_size);
            &&& es.len() == pfs.len() + 1
            &&& forall|i: int| 0 <= i < es.len() ==> (#[trigger] es[i]).wf()
            &&& forall|i: int|
                0 <= i < pfs.len() ==> (#[trigger] es[i + 1]).zsize_index == man_zs.len()
                    + zsizes_before(pfs, i)
            &&& forall|i: int|
                0 <= i < pfs.len() ==> (#[trigger] es[i + 1]).offset == spec_pack_toc_length(
                    pfs,
                    man_zs,
                ) + man_dlen + data_before(pfs, i)
        }),
{
    let es = spec_pack_entries(pfs, man_zs, man_dlen, man_size);
    let tl = spec_pack_toc_length(pfs, man_zs);
    assert(crate::cache::zero_hash().len() == 16);
    assert forall|i: int| 0 <= i < es.len() implies (#[trigger] es[i]).wf() by {
        if i > 0 {
            crate::pack::lemma_all_prefix_le(pfs, i - 1);
            assert(es[i].name_hash == pfs[i - 1].name_hash);
            assert(man_zs.len() + zsizes_before(pfs, i - 1) <= man_zs.len() + all_zsizes(
                pfs,
            ).len() <= 0xffff_ffff);
            assert(tl + man_dlen + data_before(pfs, i - 1) <= tl + man_dlen + all_data(pfs).len()
                < 0x100_0000_0000);
            assert(pfs[i - 1].size < 0x100_0000_0000);
        }
    }
    assert forall|i: int| 0 <= i < pfs.len() implies (#[trigger] es[i + 1]).zsize_index
        == man_zs.len() + zsizes_before(pfs, i) && (#[trigger] es[i + 1]).offset == tl + man_dlen
        + data_before(pfs, i) by {
        crate::pack::lemma_all_prefix_le(pfs, i);
    }
}

/// Parsing a packed archive yields exactly the model it was built from.
#[verifier::rlimit(100)]
#[verifier::spinoff_prover]
pub proof fn lemma_parse_packed(
    pfs: Seq<PackedFileModel>,
    man_zs: Seq<u16>,
    man_data: Seq<u8>,
    man_size: int,
)
    requires
        spec_pack_fits(pfs, man_zs, man_data.len() as int, man_size),
        0 <= man_size,
        forall|i: int| 0 <= i < pfs.len() ==> (#[trigger] pfs[i]).name_hash.len() == 16,
    ensures
        ({
            let a = spec_pack_bytes(pfs, man_zs, man_data, man_size);
            let es = spec_pack_entries(pfs, man_zs, man_data.len() as int, man_size);
            let zs_all = man_zs + all_zsizes(pfs);
            let tl = spec_pack_toc_length(pfs, man_zs);
            &&& crate::toc::spec_parse_toc(a, true) is Ok
            &&& crate::toc::spec_parse_toc(a, true)->Ok_0.entries == es
            &&& crate::toc::spec_parse_toc(a, true)->Ok_0.zsizes == zs_all
            &&& crate::toc::spec_parse_toc(a, true)->Ok_0.block_size == 65536
            &&& a.len() == tl + man_data.len() + all_data(pfs).len()
        }),
{
    let a = spec_pack_bytes(pfs, man_zs, man_data, man_size);
    let es = spec_pack_entries(pfs, man_zs, man_data.len() as int, man_size);
    let zs_all = man_zs + all_zsizes(pfs);
    let tl = spec_pack_toc_length(pfs, man_zs);
    let n: int = pfs.len() as int + 1;
    let z: int = zs_all.len() as int;
    lemma_pack_entries_wf(pfs, man_zs, man_data.len() as int, man_size);
    crate::toc::lemma_entries_bytes_len(es);
    crate::toc::lemma_zsizes_bytes_len(zs_all);
    let header = crate::toc::spec_header_bytes(tl as u32, n as u32, 65536);
    let eb = crate::toc::spec_entries_bytes(es);
    let zb = crate::toc::spec_zsizes_bytes(zs_all);
    assert(crate::wire::be16_bytes(1).len() == 2);
    assert(crate::wire::be16_bytes(4).len() == 2);
    assert(crate::wire::be32_bytes(tl as u32).len() == 4);
    assert(crate::wire::be32_bytes(30).len() == 4);
    assert(crate::wire::be32_bytes(n as u32).len() == 4);
    assert(crate::wire::be32_bytes(65536).len() == 4);
    assert(crate::wire::be32_bytes(1).len() == 4);
    assert(header.len() == 32);
    assert(eb.len() == 30 * n);
    assert(zb.len() == 2 * z);
    assert(crate::toc::spec_toc_bytes(es, zs_all, 65536) == header + eb + zb) by {
        assert(crate::toc::spec_toc_length(es.len() as int, zs_all.len() as int) == tl);
        assert((crate::toc::spec_toc_length(es.len() as int, zs_all.len() as int) as u32)
            == tl as u32);
        assert((es.len() as u32) == n as u32);
    }
    assert(a == (header + eb + zb) + man_data + all_data(pfs));
    assert(a.len() == tl + man_data.len() + all_data(pfs).len());
    // Header fields.
    assert(a.subrange(0, 32) =~= header);
    assert(header.subrange(0, 4) =~= crate::toc::magic_bytes());
    assert(header.subrange(8, 12) =~= crate::toc::zlib_tag_bytes());
    assert(header.subrange(12, 16) =~= crate::wire::be32_bytes(tl as u32));
    assert(header.subrange(20, 24) =~= crate::wire::be32_bytes(n as u32));
    assert(header.subrange(24, 28) =~= crate::wire::be32_bytes(65536));
    assert(a.subrange(0, 4) =~= header.subrange(0, 4));
    assert(a.subrange(8, 12) =~= header.subrange(8, 12));
    assert(a.subrange(12, 16) =~= header.subrange(12, 16));
    assert(a.subrange(20, 24) =~= header.subrange(20, 24));
    assert(a.subrange(24, 28) =~= header.subrange(24, 28));
    crate::wire::lemma_be32_roundtrip(tl as u32);
    crate::wire::lemma_be32_roundtrip(n as u32);
    crate::wire::lemma_be32_roundtrip(65536);
    let g_tl = crate::wire::be32_val(a.subrange(12, 16));
    let g_n = crate::wire::be32_val(a.subrange(20, 24));
    let g_bs = crate::wire::be32_val(a.subrange(24, 28));
    assert(g_tl == tl);
    assert(g_n == n);
    assert(g_bs == 65536);
    assert(32 + 30 * n <= a.len());
    assert(tl >= 32 + 30 * n);
    assert((tl - 32 - 30 * n) / 2 == z);
    assert(32 + 30 * n + 2 * z <= a.len());
    // Entries parse back.
    assert forall|i: int| 0 <= i < n implies crate::toc::spec_entry_at(a, 32 + 30 * i) == es[i]
        by {
        lemma_entries_split(es, i);
        crate::toc::lemma_entries_bytes_snoc(es, i);
        lemma_entries_split(es, i + 1);
        crate::toc::lemma_entries_bytes_len(es.take(i));
        assert(crate::toc::spec_entries_bytes(es.take(i)).len() == 30 * i);
        let ebi = crate::toc::spec_entry_bytes(es[i]);
        assert(eb.subrange(30 * i, 30 * i + 30) =~= ebi) by {
            assert(crate::toc::spec_entries_bytes(es.take(i + 1)) == crate::toc::spec_entries_bytes(
                es.take(i),
            ) + ebi);
            assert(eb == crate::toc::spec_entries_bytes(es.take(i + 1))
                + crate::toc::spec_entries_bytes(es.skip(i + 1)));
            crate::toc::lemma_entries_bytes_len(es.take(i + 1));
        }
        let p = 32 + 30 * i;
        assert(a.subrange(p, p + 30) =~= eb.subrange(30 * i, 30 * i + 30));
        assert(es[i].wf());
        assert(es[i].name_hash.len() == 16);
        assert(crate::wire::be32_bytes(es[i].zsize_index).len() == 4);
        assert(crate::wire::be40_bytes(es[i].uncompressed_size).len() == 5) by {
            crate::wire::lemma_be40_roundtrip(es[i].uncompressed_size);
        }
        assert(crate::wire::be40_bytes(es[i].offset).len() == 5) by {
            crate::wire::lemma_be40_roundtrip(es[i].offset);
        }
        assert(ebi.subrange(0, 16) =~= es[i].name_hash);
        assert(ebi.subrange(16, 20) =~= crate::wire::be32_bytes(es[i].zsize_index));
        assert(ebi.subrange(20, 25) =~= crate::wire::be40_bytes(es[i].uncompressed_size));
        assert(ebi.subrange(25, 30) =~= crate::wire::be40_bytes(es[i].offset));
        assert(a.subrange(p, p + 16) =~= ebi.subrange(0, 16));
        assert(a.subrange(p + 16, p + 20) =~= ebi.subrange(16, 20));
        assert(a.subrange(p + 20, p + 25) =~= ebi.subrange(20, 25));
        assert(a.subrange(p + 25, p + 30) =~= ebi.subrange(25, 30));
        crate::wire::lemma_be32_roundtrip(es[i].zsize_index);
        crate::wire::lemma_be40_roundtrip(es[i].uncompressed_size);
        crate::wire::lemma_be40_roundtrip(es[i].offset);
    }
    // ZSizes parse back.
    assert forall|i: int| 0 <= i < z implies crate::wire::be16_val(
        a.subrange(32 + 30 * n + 2 * i, 32 + 30 * n + 2 * i + 2),
    ) == zs_all[i] by {
        lemma_zsizes_split(zs_all, i);
        crate::toc::lemma_zsizes_bytes_snoc(zs_all, i);
        lemma_zsizes_split(zs_all, i + 1);
        crate::toc::lemma_zsizes_bytes_len(zs_all.take(i));
        crate::toc::lemma_zsizes_bytes_len(zs_all.take(i + 1));
        let bi = crate::wire::be16_bytes(zs_all[i]);
        assert(bi.len() == 2);
        assert(zb.subrange(2 * i, 2 * i + 2) =~= bi) by {
            assert(crate::toc::spec_zsizes_bytes(zs_all.take(i + 1))
                == crate::toc::spec_zsizes_bytes(zs_all.take(i)) + bi);
            assert(zb == crate::toc::spec_zsizes_bytes(zs_all.take(i + 1))
                + crate::toc::spec_zsizes_bytes(zs_all.skip(i + 1)));
        }
        assert(a.subrange(32 + 30 * n + 2 * i, 32 + 30 * n + 2 * i + 2) =~= zb.subrange(
            2 * i,
            2 * i + 2,
        ));
        crate::wire::lemma_be16_roundtrip(zs_all[i]);
    }
    assert(a.len() >= 32);
    assert(a.subrange(0, 4) == crate::toc::magic_bytes());
    assert(a.subrange(8, 12) == crate::toc::zlib_tag_bytes());
    let m = crate::toc::spec_parse_toc(a, true);
    assert(m is Ok);
    assert(m->Ok_0.entries =~= es);
    assert(m->Ok_0.zsizes =~= zs_all);
    assert(m->Ok_0.block_size == 65536);
}


/// A path the manifest machinery hands through unchanged: nonempty, no
/// newline or NUL byte, and no whitespace at either end.
pub open spec fn wf_path(p: Seq<u8>) -> bool {
    &&& p.len() > 0
    &&& !crate::manifest::is_ws(p.first())
    &&& !crate::manifest::is_ws(p.last())
    &&& forall|i: int| 0 <= i < p.len() ==> #[trigger] p[i] != 0x0a && p[i] != 0x00
}

/// Trimming a sequence without whitespace at its ends changes nothing.
pub proof fn lemma_trim_noop(p: Seq<u8>)
    requires
        p.len() == 0 || (!crate::manifest::is_ws(p.first()) && !crate::manifest::is_ws(p.last())),
    ensures
        crate::manifest::trim_ws(p) == p,
{
}

/// Appending separator-free bytes extends the final piece.
pub proof fn lemma_split_append_sepfree(t: Seq<u8>, q: Seq<u8>)
    requires
        forall|i: int| 0 <= i < q.len() ==> #[trigger] q[i] != 0x0a && q[i] != 0x00,
    ensures
        crate::extract::split_names(t + q) == crate::extract::split_names(t).update(
            crate::extract::split_names(t).len() - 1,
            crate::extract::split_names(t).last() + q,
        ),
    decreases q.len(),
{
    crate::extract::lemma_split_names_nonempty(t);
    let st = crate::extract::split_names(t);
    if q.len() == 0 {
        assert(t + q =~= t);
        assert(st.last() + q =~= st.last());
        assert(st.update(st.len() - 1, st.last() + q) =~= st);
    } else {
        lemma_split_append_sepfree(t, q.drop_last());
        let t2 = t + q.drop_last();
        let st2 = crate::extract::split_names(t2);
        crate::extract::lemma_split_names_nonempty(t2);
        assert(st2 == st.update(st.len() - 1, st.last() + q.drop_last()));
        let full = t + q;
        assert(full.len() > 0);
        assert(full.drop_last() =~= t2);
        assert(full.last() == q.last());
        assert(q.last() != 0x0a && q.last() != 0x00) by {
            assert(q[q.len() - 1] != 0x0a && q[q.len() - 1] != 0x00);
        }
        assert(crate::extract::split_names(full) == st2.update(
            st2.len() - 1,
            st2.last().push(q.last()),
        ));
        assert(st2.last() == st.last() + q.drop_last());
        assert((st.last() + q.drop_last()).push(q.last()) =~= st.last() + q);
        assert(st2.update(st2.len() - 1, st.last() + q) =~= st.update(
            st.len() - 1,
            st.last() + q,
        ));
    }
}

/// Appending a newline starts a new, empty final piece.
pub proof fn lemma_split_append_nl(t: Seq<u8>)
    ensures
        crate::extract::split_names(t + seq![0x0au8]) == crate::extract::split_names(t) + seq![
            Seq::<u8>::empty(),
        ],
{
    let full = t + seq![0x0au8];
    assert(full.len() > 0);
    assert(full.drop_last() =~= t);
    assert(full.last() == 0x0a);
}

/// The paths of a file list, in order.
pub open spec fn paths_of(ov: Seq<crate::FileInputModel>) -> Seq<Seq<u8>> {
    Seq::new(ov.len(), |i: int| ov[i].path)
}

/// Splitting the joined paths yields one piece per path (with well-formed
/// paths, which hold no separators).
pub proof fn lemma_split_join(ps: Seq<Seq<u8>>)
    requires
        ps.len() >= 1,
        forall|i: int| 0 <= i < ps.len() ==> wf_path(#[trigger] ps[i]),
    ensures
        crate::extract::split_names(crate::manifest::join_nl(ps)) == ps,
    decreases ps.len(),
{
    if ps.len() == 1 {
        assert(crate::manifest::join_nl(ps) == ps[0]);
        let q = ps[0];
        assert(Seq::<u8>::empty() + q =~= q);
        lemma_split_append_sepfree(Seq::<u8>::empty(), q);
        assert(crate::extract::split_names(Seq::<u8>::empty()) == seq![Seq::<u8>::empty()]);
        assert(crate::extract::split_names(q) =~= seq![q]) by {
            assert(crate::extract::split_names(Seq::<u8>::empty() + q)
                == crate::extract::split_names(Seq::<u8>::empty()).update(
                0,
                Seq::<u8>::empty() + q,
            ));
            assert(Seq::<u8>::empty() + q =~= q);
        }
        assert(ps =~= seq![q]);
    } else {
        let pre = ps.drop_last();
        let q = ps.last();
        assert(forall|i: int| 0 <= i < pre.len() ==> wf_path(#[trigger] pre[i])) by {
            assert(forall|i: int| 0 <= i < pre.len() ==> pre[i] == ps[i]);
        }
        lemma_split_join(pre);
        crate::manifest::lemma_join_nl_snoc(ps, ps.len() - 1);
        assert(ps.take(ps.len() as int) =~= ps);
        assert(ps.take(ps.len() - 1) =~= pre);
        assert(crate::manifest::join_nl(ps) == crate::manifest::join_nl(pre) + seq![0x0au8] + q);
        let jp = crate::manifest::join_nl(pre);
        lemma_split_append_nl(jp);
        let mid = jp + seq![0x0au8];
        lemma_split_append_sepfree(mid, q);
        let smid = crate::extract::split_names(mid);
        assert(smid == pre + seq![Seq::<u8>::empty()]);
        assert(smid.last() == Seq::<u8>::empty());
        assert(smid.last() + q =~= q);
        assert(mid + q =~= crate::manifest::join_nl(ps));
        assert(smid.update(smid.len() - 1, q) =~= ps);
    }
}

/// Trimming well-formed pieces keeps them all.
pub proof fn lemma_trimmed_names_id(ps: Seq<Seq<u8>>)
    requires
        forall|i: int| 0 <= i < ps.len() ==> wf_path(#[trigger] ps[i]),
    ensures
        crate::extract::trimmed_names(ps) == ps,
    decreases ps.len(),
{
    if ps.len() > 0 {
        lemma_trim_noop(ps[0]);
        assert(crate::manifest::trim_ws(ps[0]).len() > 0);
        assert(forall|i: int| 0 <= i < ps.skip(1).len() ==> wf_path(#[trigger] ps.skip(1)[i]))
            by {
            assert(forall|i: int| 0 <= i < ps.skip(1).len() ==> ps.skip(1)[i] == ps[i + 1]);
        }
        lemma_trimmed_names_id(ps.skip(1));
        assert(crate::extract::trimmed_names(ps) =~= ps);
    }
}

/// The names parsed back out of the generated manifest are exactly the
/// packed paths.
pub proof fn lemma_manifest_names_roundtrip(ps: Seq<Seq<u8>>)
    requires
        forall|i: int| 0 <= i < ps.len() ==> wf_path(#[trigger] ps[i]),
    ensures
        crate::extract::spec_manifest_names(crate::manifest::join_nl(ps)) == ps,
{
    if ps.len() == 0 {
        assert(crate::manifest::join_nl(ps).len() == 0);
        assert(crate::extract::split_names(Seq::<u8>::empty()) == seq![Seq::<u8>::empty()]);
        assert(crate::manifest::join_nl(ps) =~= Seq::<u8>::empty());
        assert(crate::extract::trimmed_names(seq![Seq::<u8>::empty()]) =~= ps) by {
            assert(crate::manifest::trim_ws(Seq::<u8>::empty()) == Seq::<u8>::empty());
            assert(seq![Seq::<u8>::empty()].skip(1) =~= Seq::<Seq<u8>>::empty());
            assert(crate::extract::trimmed_names(seq![Seq::<u8>::empty()].skip(1)).len() == 0);
        }
    } else {
        lemma_split_join(ps);
        lemma_trimmed_names_id(ps);
    }
}

/// Uppercasing is idempotent, and uppercasing a lowercased sequence gives
/// the uppercased one: all three spellings of a name share one hash.
pub proof fn lemma_case_hashes(p: Seq<u8>)
    ensures
        name_hash_of(crate::hash::upper_ascii(p)) == name_hash_of(p),
        name_hash_of(crate::extract::lower_ascii(p)) == name_hash_of(p),
{
    assert(crate::hash::upper_ascii(crate::hash::upper_ascii(p)) =~= crate::hash::upper_ascii(p));
    assert(crate::hash::upper_ascii(crate::extract::lower_ascii(p)) =~= crate::hash::upper_ascii(
        p,
    ));
}

/// Looking up the hash of the `i`th name in the manifest map finds that
/// name, when the names' hashes are pairwise distinct.
pub proof fn lemma_lookup_name_map(names: Seq<Seq<u8>>, i: int)
    requires
        0 <= i < names.len(),
        forall|j: int, k: int|
            0 <= j < k < names.len() ==> name_hash_of(#[trigger] names[j]) != name_hash_of(
                #[trigger] names[k],
            ),
    ensures
        crate::extract::spec_lookup(
            crate::extract::spec_name_map(names),
            name_hash_of(names[i]),
        ) == Some(names[i]),
    decreases names.len(),
{
    let h = name_hash_of(names[i]);
    let pre = names.drop_last();
    let q = names.last();
    assert(names =~= pre.push(q));
    crate::extract::lemma_name_map_snoc(pre, q);
    let map = crate::extract::spec_name_map(names);
    let pmap = crate::extract::spec_name_map(pre);
    let recs = crate::extract::spec_name_records(q);
    assert(crate::extract::spec_name_map(pre.push(q)) == pmap + recs);
    assert(map == pmap + recs);
    lemma_case_hashes(q);
    assert(recs.len() == 3);
    assert(recs[0].hash == name_hash_of(q) && recs[0].name == q);
    assert(recs[1].hash == name_hash_of(q) && recs[1].name == q);
    assert(recs[2].hash == name_hash_of(q) && recs[2].name == q);
    assert(map.len() == pmap.len() + 3);
    assert(map.last() == recs[2]);
    if i == names.len() - 1 {
        assert(q == names[i]);
        assert(map.last().hash == h);
        assert(crate::extract::spec_lookup(map, h) == Some(q));
    } else {
        assert(name_hash_of(q) != h);
        assert(map.drop_last() =~= pmap + recs.take(2));
        assert((pmap + recs.take(2)).last() == recs[1]);
        assert((pmap + recs.take(2)).drop_last() =~= pmap + recs.take(1));
        assert((pmap + recs.take(1)).last() == recs[0]);
        assert((pmap + recs.take(1)).drop_last() =~= pmap);
        assert(crate::extract::spec_lookup(map, h) == crate::extract::spec_lookup(
            pmap + recs.take(2),
            h,
        ));
        assert(crate::extract::spec_lookup(pmap + recs.take(2), h)
            == crate::extract::spec_lookup(pmap + recs.take(1), h));
        assert(crate::extract::spec_lookup(pmap + recs.take(1), h)
            == crate::extract::spec_lookup(pmap, h));
        assert(crate::extract::spec_lookup(map, h) == crate::extract::spec_lookup(pmap, h));
        assert(forall|j: int, k: int|
            0 <= j < k < pre.len() ==> name_hash_of(#[trigger] pre[j]) != name_hash_of(
                #[trigger] pre[k],
            )) by {
            assert(forall|j: int| 0 <= j < pre.len() ==> pre[j] == names[j]);
        }
        assert(pre[i] == names[i]);
        lemma_lookup_name_map(pre, i);
    }
}


/// The manifest bytes a pack of these files stores: their paths joined by
/// newlines.
pub open spec fn manifest_of(ov: Seq<crate::FileInputModel>) -> Seq<u8> {
    crate::manifest::join_nl(paths_of(ov))
}

/// The files as a full pack stores them: every one freshly chunked and
/// compressed.
pub open spec fn fresh_packed(ov: Seq<crate::FileInputModel>, level: int) -> Seq<
    PackedFileModel,
> {
    Seq::new(
        ov.len(),
        |i: int|
            PackedFileModel {
                name_hash: name_hash_of(ov[i].path),
                size: ov[i].data.len() as u64,
                zsizes: file_zsizes(level, spec_chunks(ov[i].data)),
                data: stored_file_bytes(level, spec_chunks(ov[i].data)),
                reused: false,
            },
    )
}

/// A full pack stores every file freshly, whatever the modified set and
/// cache hold.
pub proof fn lemma_full_pack_is_fresh(
    ov: Seq<crate::FileInputModel>,
    level: int,
    modified: Seq<Seq<u8>>,
    cache: Seq<crate::cache::CachedFileModel>,
)
    ensures
        crate::pack::spec_packed_files(ov, level, crate::PackingMode::Full, modified, cache)
            == fresh_packed(ov, level),
{
    assert(crate::pack::spec_packed_files(ov, level, crate::PackingMode::Full, modified, cache)
        =~= fresh_packed(ov, level));
}

/// What extraction should return for these files.
pub open spec fn expected_extract(ov: Seq<crate::FileInputModel>) -> Seq<
    crate::extract::ExtractedFileModel,
> {
    Seq::new(
        ov.len(),
        |i: int|
            crate::extract::ExtractedFileModel {
                path: ov[i].path,
                data: ov[i].data,
                expected_size: ov[i].data.len() as u64,
            },
    )
}

/// Decoding one packed file's entry out of the packed archive yields the
/// file's bytes.
#[verifier::rlimit(100)]
#[verifier::spinoff_prover]
pub proof fn lemma_entry_decodes(
    ov: Seq<crate::FileInputModel>,
    level: int,
    man_zs: Seq<u16>,
    man_data: Seq<u8>,
    man_size: int,
    k: int,
)
    requires
        0 <= k < ov.len(),
        spec_pack_fits(fresh_packed(ov, level), man_zs, man_data.len() as int, man_size),
        0 <= man_size,
        forall|i: int| 0 <= i < ov.len() ==> name_hash_of(#[trigger] ov[i].path).len() == 16,
        codec_facts(level, ov[k].data),
        decode_safe(level, ov[k].data),
    ensures
        ({
            let pfs = fresh_packed(ov, level);
            let a = spec_pack_bytes(pfs, man_zs, man_data, man_size);
            let es = spec_pack_entries(pfs, man_zs, man_data.len() as int, man_size);
            spec_decode_entry(
                a,
                man_zs + all_zsizes(pfs),
                es[k + 1].zsize_index,
                es[k + 1].offset,
                es[k + 1].uncompressed_size,
                65536,
            ) == Ok::<Seq<u8>, PsarcError>(ov[k].data)
        }),
{
    let pfs = fresh_packed(ov, level);
    let a = spec_pack_bytes(pfs, man_zs, man_data, man_size);
    let es = spec_pack_entries(pfs, man_zs, man_data.len() as int, man_size);
    let zs_all = man_zs + all_zsizes(pfs);
    let tl = spec_pack_toc_length(pfs, man_zs);
    let d = ov[k].data;
    let cs = spec_chunks(d);
    lemma_chunks_props(d);
    lemma_pack_entries_wf(pfs, man_zs, man_data.len() as int, man_size);
    lemma_parse_packed(pfs, man_zs, man_data, man_size);
    crate::pack::lemma_all_prefix_le(pfs, k);
    crate::pack::lemma_all_prefix_le(pfs, k + 1);
    crate::pack::lemma_all_snoc(pfs, k);
    lemma_all_split(pfs, k);
    let zidx = man_zs.len() as int + zsizes_before(pfs, k);
    let off = tl + man_data.len() + data_before(pfs, k);
    assert(es[k + 1].zsize_index == zidx);
    assert(es[k + 1].offset == off);
    assert(es[k + 1].uncompressed_size == pfs[k].size);
    assert(pfs[k].size == d.len() as u64);
    assert(pfs[k].zsizes == file_zsizes(level, cs));
    assert(pfs[k].data == stored_file_bytes(level, cs));
    assert(pfs[k].zsizes.len() == cs.len());
    // The entry's ZSize run sits at its index in the shared table.
    assert(all_zsizes(pfs.skip(k)) == pfs[k].zsizes + all_zsizes(pfs.skip(k + 1))) by {
        assert(pfs.skip(k).len() > 0);
        assert(pfs.skip(k)[0] == pfs[k]);
        assert(pfs.skip(k).skip(1) =~= pfs.skip(k + 1));
    }
    assert(zidx + cs.len() <= zs_all.len()) by {
        assert(zsizes_before(pfs, k) + pfs[k].zsizes.len() == zsizes_before(pfs, k + 1));
    }
    assert(forall|w: int|
        0 <= w < cs.len() ==> zs_all[zidx + w] == zsize_of_block(level, #[trigger] cs[w])) by {
        assert(forall|w: int|
            0 <= w < cs.len() ==> #[trigger] zs_all[zidx + w] == all_zsizes(pfs)[zsizes_before(
                pfs,
                k,
            ) + w]);
        assert(forall|w: int|
            0 <= w < cs.len() ==> #[trigger] all_zsizes(pfs)[zsizes_before(pfs, k) + w]
                == pfs[k].zsizes[w]);
        assert(forall|w: int|
            0 <= w < cs.len() ==> #[trigger] pfs[k].zsizes[w] == zsize_of_block(level, cs[w]));
    }
    // The entry's stored bytes sit at its offset in the archive.
    let stored = stored_file_bytes(level, cs);
    assert(data_before(pfs, k) + stored.len() == data_before(pfs, k + 1));
    assert(off + stored.len() <= a.len());
    assert(all_data(pfs.skip(k)) == pfs[k].data + all_data(pfs.skip(k + 1))) by {
        assert(pfs.skip(k).len() > 0);
        assert(pfs.skip(k)[0] == pfs[k]);
        assert(pfs.skip(k).skip(1) =~= pfs.skip(k + 1));
    }
    assert(a.subrange(off, off + stored.len() as int) =~= stored) by {
        assert(forall|w: int|
            0 <= w < stored.len() ==> #[trigger] a[off + w] == all_data(pfs)[data_before(pfs, k)
                + w]);
        assert(forall|w: int|
            0 <= w < stored.len() ==> #[trigger] all_data(pfs)[data_before(pfs, k) + w]
                == pfs[k].data[w]);
    }
    if d.len() == 0 {
        assert(cs.len() == 0);
        assert(es[k + 1].uncompressed_size == 0);
        assert(spec_decode_entry(a, zs_all, es[k + 1].zsize_index, es[k + 1].offset, 0, 65536)
            == Ok::<Seq<u8>, PsarcError>(Seq::empty()));
        assert(d =~= Seq::<u8>::empty());
    } else {
        assert(stored.len() > 0) by {
            assert(stored == crate::blocks::stored_block(level, cs[0]) + stored_file_bytes(
                level,
                cs.skip(1),
            ));
            if block_compresses(level, cs[0]) {
                assert(zlib_deflate(level, cs[0]).len() >= 2);
            }
        }
        assert(es[k + 1].offset < a.len());
        assert((es[k + 1].uncompressed_size as int) == d.len());
        lemma_decode_encoded(a, zs_all, level, cs, zidx, off, d.len() as int, Seq::empty());
        assert(Seq::<u8>::empty() + concat_chunks(cs) =~= d);
    }
}

/// Decoding the manifest entry of the packed archive yields the manifest
/// bytes.
#[verifier::rlimit(100)]
#[verifier::spinoff_prover]
pub proof fn lemma_manifest_decodes(
    ov: Seq<crate::FileInputModel>,
    level: int,
    mbytes: Seq<u8>,
)
    requires
        spec_pack_fits(
            fresh_packed(ov, level),
            file_zsizes(level, spec_chunks(mbytes)),
            stored_file_bytes(level, spec_chunks(mbytes)).len() as int,
            mbytes.len() as int,
        ),
        forall|i: int| 0 <= i < ov.len() ==> name_hash_of(#[trigger] ov[i].path).len() == 16,
        codec_facts(level, mbytes),
        decode_safe(level, mbytes),
    ensures
        ({
            let pfs = fresh_packed(ov, level);
            let man_zs = file_zsizes(level, spec_chunks(mbytes));
            let man_data = stored_file_bytes(level, spec_chunks(mbytes));
            let a = spec_pack_bytes(pfs, man_zs, man_data, mbytes.len() as int);
            let es = spec_pack_entries(pfs, man_zs, man_data.len() as int, mbytes.len() as int);
            spec_decode_entry(
                a,
                man_zs + all_zsizes(pfs),
                es[0].zsize_index,
                es[0].offset,
                es[0].uncompressed_size,
                65536,
            ) == Ok::<Seq<u8>, PsarcError>(mbytes)
        }),
{
    let pfs = fresh_packed(ov, level);
    let man_zs = file_zsizes(level, spec_chunks(mbytes));
    let man_data = stored_file_bytes(level, spec_chunks(mbytes));
    let a = spec_pack_bytes(pfs, man_zs, man_data, mbytes.len() as int);
    let es = spec_pack_entries(pfs, man_zs, man_data.len() as int, mbytes.len() as int);
    let zs_all = man_zs + all_zsizes(pfs);
    let tl = spec_pack_toc_length(pfs, man_zs);
    let cs = spec_chunks(mbytes);
    lemma_chunks_props(mbytes);
    lemma_pack_entries_wf(pfs, man_zs, man_data.len() as int, mbytes.len() as int);
    lemma_parse_packed(pfs, man_zs, man_data, mbytes.len() as int);
    assert(es[0].zsize_index == 0);
    assert(es[0].offset == tl);
    assert(es[0].uncompressed_size == mbytes.len() as u64);
    assert(man_zs.len() == cs.len());
    assert(forall|w: int|
        0 <= w < cs.len() ==> zs_all[w] == zsize_of_block(level, #[trigger] cs[w])) by {
        assert(forall|w: int| 0 <= w < cs.len() ==> zs_all[w] == man_zs[w]);
    }
    assert(a.subrange(tl, tl + man_data.len() as int) =~= man_data);
    if mbytes.len() == 0 {
        assert(cs.len() == 0);
        assert(spec_decode_entry(a, zs_all, 0, tl as u64, 0, 65536) == Ok::<Seq<u8>, PsarcError>(
            Seq::empty(),
        ));
        assert(mbytes =~= Seq::<u8>::empty());
    } else {
        assert(man_data.len() > 0) by {
            assert(man_data == crate::blocks::stored_block(level, cs[0]) + stored_file_bytes(
                level,
                cs.skip(1),
            ));
            if block_compresses(level, cs[0]) {
                assert(zlib_deflate(level, cs[0]).len() >= 2);
            }
        }
        assert(tl < a.len());
        lemma_decode_encoded(a, zs_all, level, cs, 0, tl, mbytes.len() as int, Seq::empty());
        assert(Seq::<u8>::empty() + concat_chunks(cs) =~= mbytes);
    }
}

/// Walking the entries from position `i` on extracts exactly the
/// remaining expected files, when every entry decodes and resolves.
pub proof fn lemma_extract_entries(
    a: Seq<u8>,
    zs_all: Seq<u16>,
    es: Seq<crate::toc::EntryModel>,
    map: Seq<crate::extract::NameMapEntryModel>,
    expected: Seq<crate::extract::ExtractedFileModel>,
    i: int,
)
    requires
        es.len() == expected.len() + 1,
        1 <= i <= es.len(),
        forall|k: int|
            0 <= k < expected.len() ==> {
                let e = #[trigger] es[k + 1];
                &&& e.name_hash != crate::cache::zero_hash()
                &&& e.offset != 0
                &&& e.uncompressed_size == expected[k].expected_size
                &&& spec_decode_entry(a, zs_all, e.zsize_index, e.offset, e.uncompressed_size, 65536)
                    == Ok::<Seq<u8>, PsarcError>(expected[k].data)
                &&& crate::extract::spec_lookup(map, e.name_hash) == Some(expected[k].path)
            },
    ensures
        crate::extract::spec_extract_files(a, zs_all, es, 65536, map, i) == Ok::<
            Seq<crate::extract::ExtractedFileModel>,
            PsarcError,
        >(expected.skip(i - 1)),
    decreases es.len() - i,
{
    if i == es.len() {
        assert(expected.skip(i - 1).len() == 0);
        assert(crate::extract::spec_extract_files(a, zs_all, es, 65536, map, i) == Ok::<
            Seq<crate::extract::ExtractedFileModel>,
            PsarcError,
        >(Seq::empty()));
        assert(Seq::<crate::extract::ExtractedFileModel>::empty() =~= expected.skip(i - 1));
    } else {
        let k = i - 1;
        let e = es[i];
        assert(e == es[k + 1]);
        assert(e.name_hash != crate::cache::zero_hash());
        assert(e.offset != 0);
        lemma_extract_entries(a, zs_all, es, map, expected, i + 1);
        let item = crate::extract::ExtractedFileModel {
            path: expected[k].path,
            data: expected[k].data,
            expected_size: e.uncompressed_size,
        };
        assert(item == expected[k]);
        assert(seq![item] + expected.skip(i) =~= expected.skip(i - 1));
    }
}

/// Packing a list of files and extracting the archive returns the same
/// files, path for path and byte for byte, with the manifest as entry 0.
/// The hypotheses state what the codec wrappers promise of every call
/// (compressed blocks inflate back and carry a zlib header), that raw
/// partial trailing blocks do not masquerade as zlib streams, that the
/// paths are well formed with pairwise distinct, nonzero 16-byte hashes,
/// and that the archive fits the format's field widths.
#[verifier::rlimit(100)]
#[verifier::spinoff_prover]
pub proof fn lemma_pack_extract_round_trip(ov: Seq<crate::FileInputModel>, level: int)
    requires
        forall|i: int| 0 <= i < ov.len() ==> wf_path(#[trigger] ov[i].path),
        forall|i: int, j: int|
            0 <= i < j < ov.len() ==> name_hash_of(#[trigger] ov[i].path) != name_hash_of(
                #[trigger] ov[j].path,
            ),
        forall|i: int| 0 <= i < ov.len() ==> name_hash_of(#[trigger] ov[i].path).len() == 16,
        forall|i: int|
            0 <= i < ov.len() ==> name_hash_of(#[trigger] ov[i].path)
                != crate::cache::zero_hash(),
        forall|i: int|
            0 <= i < ov.len() ==> codec_facts(level, (#[trigger] ov[i]).data) && decode_safe(
                level,
                ov[i].data,
            ),
        codec_facts(level, manifest_of(ov)),
        decode_safe(level, manifest_of(ov)),
        spec_pack_fits(
            fresh_packed(ov, level),
            file_zsizes(level, spec_chunks(manifest_of(ov))),
            stored_file_bytes(level, spec_chunks(manifest_of(ov))).len() as int,
            manifest_of(ov).len() as int,
        ),
    ensures
        ({
            let mbytes = manifest_of(ov);
            let pfs = fresh_packed(ov, level);
            let man_zs = file_zsizes(level, spec_chunks(mbytes));
            let man_data = stored_file_bytes(level, spec_chunks(mbytes));
            let a = spec_pack_bytes(pfs, man_zs, man_data, mbytes.len() as int);
            crate::extract::spec_extract(a) == Ok::<
                (Option<Seq<u8>>, Seq<crate::extract::ExtractedFileModel>),
                PsarcError,
            >((Some(mbytes), expected_extract(ov)))
        }),
{
    let mbytes = manifest_of(ov);
    let pfs = fresh_packed(ov, level);
    let man_zs = file_zsizes(level, spec_chunks(mbytes));
    let man_data = stored_file_bytes(level, spec_chunks(mbytes));
    let man_size = mbytes.len() as int;
    let a = spec_pack_bytes(pfs, man_zs, man_data, man_size);
    let es = spec_pack_entries(pfs, man_zs, man_data.len() as int, man_size);
    let zs_all = man_zs + all_zsizes(pfs);
    let tl = spec_pack_toc_length(pfs, man_zs);
    lemma_pack_entries_wf(pfs, man_zs, man_data.len() as int, man_size);
    lemma_parse_packed(pfs, man_zs, man_data, man_size);
    let m = crate::toc::spec_parse_toc(a, true)->Ok_0;
    assert(m.entries == es && m.zsizes == zs_all && m.block_size == 65536);
    // The manifest entry decodes to the manifest bytes.
    lemma_manifest_decodes(ov, level, mbytes);
    assert(es[0].name_hash == crate::cache::zero_hash());
    assert(es[0].offset == tl);
    assert(tl != 0);
    assert(crate::extract::spec_extract_manifest(a, m) == Some(mbytes));
    // The name map holds every path under its hash.
    lemma_manifest_names_roundtrip(paths_of(ov));
    let map = crate::extract::spec_name_map(paths_of(ov));
    assert((match crate::extract::spec_extract_manifest(a, m) {
        Some(d) => crate::extract::spec_name_map(crate::extract::spec_manifest_names(d)),
        None => Seq::<crate::extract::NameMapEntryModel>::empty(),
    }) == map);
    let expected = expected_extract(ov);
    assert forall|k: int| 0 <= k < expected.len() implies {
        let e = #[trigger] es[k + 1];
        &&& e.name_hash != crate::cache::zero_hash()
        &&& e.offset != 0
        &&& e.uncompressed_size == expected[k].expected_size
        &&& spec_decode_entry(a, zs_all, e.zsize_index, e.offset, e.uncompressed_size, 65536)
            == Ok::<Seq<u8>, PsarcError>(expected[k].data)
        &&& crate::extract::spec_lookup(map, e.name_hash) == Some(expected[k].path)
    } by {
        assert(es[k + 1].name_hash == pfs[k].name_hash);
        assert(pfs[k].name_hash == name_hash_of(ov[k].path));
        assert(es[k + 1].offset >= tl) by {
            crate::pack::lemma_all_prefix_le(pfs, k);
        }
        assert(tl >= 32);
        lemma_entry_decodes(ov, level, man_zs, man_data, man_size, k);
        assert(forall|j1: int, j2: int|
            0 <= j1 < j2 < paths_of(ov).len() ==> name_hash_of(#[trigger] paths_of(ov)[j1])
                != name_hash_of(#[trigger] paths_of(ov)[j2]));
        lemma_lookup_name_map(paths_of(ov), k);
        assert(paths_of(ov)[k] == ov[k].path);
    }
    lemma_extract_entries(a, zs_all, es, map, expected, 1);
    // Entry 0 is skipped by the walk, so the walk from 0 equals the walk
    // from 1.
    assert(crate::extract::spec_extract_files(a, zs_all, es, 65536, map, 0)
        == crate::extract::spec_extract_files(a, zs_all, es, 65536, map, 1));
    assert(expected.skip(0) =~= expected);
    assert(crate::extract::spec_extract(a) == Ok::<
        (Option<Seq<u8>>, Seq<crate::extract::ExtractedFileModel>),
        PsarcError,
    >((Some(mbytes), expected)));
}


/// Truncation resistance: a decoded entry holds exactly its announced
/// uncompressed size, also when its trailing block is partial.
#[verifier::rlimit(100)]
#[verifier::spinoff_prover]
pub proof fn lemma_extract_exact_length(
    ov: Seq<crate::FileInputModel>,
    level: int,
    man_zs: Seq<u16>,
    man_data: Seq<u8>,
    man_size: int,
    k: int,
)
    requires
        0 <= k < ov.len(),
        ov[k].data.len() < 0x100_0000_0000,
        spec_pack_fits(fresh_packed(ov, level), man_zs, man_data.len() as int, man_size),
        0 <= man_size,
        forall|i: int| 0 <= i < ov.len() ==> name_hash_of(#[trigger] ov[i].path).len() == 16,
        codec_facts(level, ov[k].data),
        decode_safe(level, ov[k].data),
    ensures
        ({
            let pfs = fresh_packed(ov, level);
            let a = spec_pack_bytes(pfs, man_zs, man_data, man_size);
            let es = spec_pack_entries(pfs, man_zs, man_data.len() as int, man_size);
            let r = spec_decode_entry(
                a,
                man_zs + all_zsizes(pfs),
                es[k + 1].zsize_index,
                es[k + 1].offset,
                es[k + 1].uncompressed_size,
                65536,
            );
            r is Ok && r->Ok_0.len() == es[k + 1].uncompressed_size
        }),
{
    lemma_entry_decodes(ov, level, man_zs, man_data, man_size, k);
    lemma_pack_entries_wf(fresh_packed(ov, level), man_zs, man_data.len() as int, man_size);
}

/// The incremental reuse rule, file by file: a file's cached blocks are
/// adopted exactly when the mode is incremental, its path is not in the
/// normalized modified set, and its name hash is in the cache; every
/// other file is freshly compressed, and the reused count counts exactly
/// the adopted ones.
pub proof fn lemma_incremental_reuse_rule(
    ov: Seq<crate::FileInputModel>,
    level: int,
    mode: crate::PackingMode,
    modified: Seq<Seq<u8>>,
    cache: Seq<crate::cache::CachedFileModel>,
    i: int,
)
    requires
        0 <= i < ov.len(),
    ensures
        ({
            let pfs = crate::pack::spec_packed_files(ov, level, mode, modified, cache);
            let h = name_hash_of(ov[i].path);
            let cached = crate::cache::spec_cache_find(cache, h, 0);
            &&& pfs[i].reused == (mode is Incremental && !modified.contains(ov[i].path) && cached
                >= 0)
            &&& (pfs[i].reused ==> pfs[i].data == cache[cached].compressed_data && pfs[i].zsizes
                == cache[cached].zsizes && pfs[i].size == cache[cached].uncompressed_size)
            &&& (!pfs[i].reused ==> pfs[i].data == stored_file_bytes(
                level,
                spec_chunks(ov[i].data),
            ) && pfs[i].zsizes == file_zsizes(level, spec_chunks(ov[i].data)) && pfs[i].size
                == ov[i].data.len() as u64)
        }),
{
    let h = name_hash_of(ov[i].path);
    crate::cache::lemma_cache_find_in_range(cache, h, 0);
    assert(crate::pack::spec_packed_files(ov, level, mode, modified, cache)[i]
        == crate::pack::spec_pack_file(ov[i], level, mode, modified, cache));
}


/// Walking an encoded entry's blocks for the cache copies back exactly
/// its stored bytes and its ZSize run.
pub proof fn lemma_cache_encoded(
    a: Seq<u8>,
    zs: Seq<u16>,
    level: int,
    cs: Seq<Seq<u8>>,
    z: int,
    off: int,
    remaining: int,
    accd: Seq<u8>,
    accz: Seq<u16>,
)
    requires
        0 <= z,
        0 <= off,
        z + cs.len() <= zs.len(),
        forall|k: int| 0 <= k < cs.len() ==> 0 < (#[trigger] cs[k]).len() <= 65536,
        forall|k: int| 0 <= k < cs.len() - 1 ==> (#[trigger] cs[k]).len() == 65536,
        forall|k: int|
            0 <= k < cs.len() ==> zs[z + k] == zsize_of_block(level, #[trigger] cs[k]),
        off + stored_file_bytes(level, cs).len() <= a.len(),
        a.subrange(off, off + stored_file_bytes(level, cs).len() as int) == stored_file_bytes(
            level,
            cs,
        ),
        remaining == concat_chunks(cs).len(),
        forall|k: int|
            0 <= k < cs.len() ==> (block_compresses(level, #[trigger] cs[k]) ==> zlib_deflate(
                level,
                cs[k],
            ).len() >= 2),
    ensures
        crate::cache::spec_cache_blocks(a, zs, z, off, remaining, 65536, accd, accz) == Ok::<
            (Seq<u8>, Seq<u16>),
            PsarcError,
        >((accd + stored_file_bytes(level, cs), accz + file_zsizes(level, cs))),
    decreases cs.len(),
{
    if cs.len() == 0 {
        assert(remaining == 0);
        assert(accd + stored_file_bytes(level, cs) =~= accd);
        assert(accz + file_zsizes(level, cs) =~= accz);
    } else {
        let b = cs[0];
        let sb = stored_block(level, b);
        let zv = zsize_of_block(level, b);
        let rest = cs.skip(1);
        assert(stored_file_bytes(level, cs) == sb + stored_file_bytes(level, rest));
        assert(concat_chunks(cs) == b + concat_chunks(rest));
        assert(remaining > 0) by {
            lemma_concat_nonempty_pub(cs);
        }
        let csize: int = if zv == 0 {
            65536
        } else {
            zv as int
        };
        assert(sb.len() == csize) by {
            if block_compresses(level, b) {
                assert(zlib_deflate(level, b).len() < b.len() <= 65536);
                assert(zlib_deflate(level, b).len() >= 2);
            }
        }
        assert(0 <= z < zs.len());
        assert(zs[z] == zv);
        assert(off + csize <= a.len());
        assert(a.subrange(off, off + csize) =~= sb);
        let accd2 = accd + sb;
        let accz2 = accz + seq![zv];
        let off2 = off + csize;
        assert(a.subrange(off2, off2 + stored_file_bytes(level, rest).len() as int)
            =~= stored_file_bytes(level, rest)) by {
            assert(forall|w: int|
                0 <= w < stored_file_bytes(level, rest).len() ==> a.subrange(
                    off,
                    off + stored_file_bytes(level, cs).len() as int,
                )[sb.len() + w] == #[trigger] stored_file_bytes(level, rest)[w]);
        }
        assert(forall|k: int|
            0 <= k < rest.len() ==> zs[z + 1 + k] == zsize_of_block(level, #[trigger] rest[k]))
            by {
            assert(forall|k: int| 0 <= k < rest.len() ==> #[trigger] rest[k] == cs[k + 1]);
        }
        let rem2 = if remaining >= 65536 {
            remaining - 65536
        } else {
            0
        };
        assert(rem2 == concat_chunks(rest).len()) by {
            if cs.len() == 1 {
                assert(rest.len() == 0);
                assert(concat_chunks(rest).len() == 0);
                assert(remaining == b.len() <= 65536);
                if remaining == 65536 {
                }
            } else {
                assert(b.len() == 65536);
                assert(remaining >= 65536);
            }
        }
        lemma_cache_encoded(a, zs, level, rest, z + 1, off2, rem2, accd2, accz2);
        assert(accd2 + stored_file_bytes(level, rest) =~= accd + stored_file_bytes(level, cs));
        assert(file_zsizes(level, cs) =~= seq![zv] + file_zsizes(level, rest));
        assert(accz2 + file_zsizes(level, rest) =~= accz + file_zsizes(level, cs));
    }
}

/// A list of nonempty chunks joins to a nonempty sequence.
pub proof fn lemma_concat_nonempty_pub(cs: Seq<Seq<u8>>)
    requires
        cs.len() >= 1,
        forall|k: int| 0 <= k < cs.len() ==> 0 < (#[trigger] cs[k]).len(),
    ensures
        concat_chunks(cs).len() > 0,
{
    assert(concat_chunks(cs) == cs[0] + concat_chunks(cs.skip(1)));
}


/// Reading one packed file's entry into the cache returns its stored
/// bytes and ZSize run verbatim.
#[verifier::rlimit(100)]
#[verifier::spinoff_prover]
pub proof fn lemma_cache_entry_encoded(
    ov: Seq<crate::FileInputModel>,
    level: int,
    man_zs: Seq<u16>,
    man_data: Seq<u8>,
    man_size: int,
    k: int,
)
    requires
        0 <= k < ov.len(),
        ov[k].data.len() < 0x100_0000_0000,
        spec_pack_fits(fresh_packed(ov, level), man_zs, man_data.len() as int, man_size),
        0 <= man_size,
        forall|i: int| 0 <= i < ov.len() ==> name_hash_of(#[trigger] ov[i].path).len() == 16,
        codec_facts(level, ov[k].data),
    ensures
        ({
            let pfs = fresh_packed(ov, level);
            let a = spec_pack_bytes(pfs, man_zs, man_data, man_size);
            let es = spec_pack_entries(pfs, man_zs, man_data.len() as int, man_size);
            crate::cache::spec_cache_entry(a, man_zs + all_zsizes(pfs), es[k + 1], 65536) == Ok::<
                crate::cache::CachedFileModel,
                PsarcError,
            >(
                crate::cache::CachedFileModel {
                    name_hash: pfs[k].name_hash,
                    compressed_data: pfs[k].data,
                    zsizes: pfs[k].zsizes,
                    uncompressed_size: pfs[k].size,
                },
            )
        }),
{
    let pfs = fresh_packed(ov, level);
    let a = spec_pack_bytes(pfs, man_zs, man_data, man_size);
    let es = spec_pack_entries(pfs, man_zs, man_data.len() as int, man_size);
    let zs_all = man_zs + all_zsizes(pfs);
    let tl = spec_pack_toc_length(pfs, man_zs);
    let d = ov[k].data;
    let cs = spec_chunks(d);
    lemma_chunks_props(d);
    lemma_pack_entries_wf(pfs, man_zs, man_data.len() as int, man_size);
    lemma_parse_packed(pfs, man_zs, man_data, man_size);
    crate::pack::lemma_all_prefix_le(pfs, k);
    crate::pack::lemma_all_prefix_le(pfs, k + 1);
    crate::pack::lemma_all_snoc(pfs, k);
    lemma_all_split(pfs, k);
    let zidx = man_zs.len() as int + zsizes_before(pfs, k);
    let off = tl + man_data.len() + data_before(pfs, k);
    assert(es[k + 1].zsize_index == zidx);
    assert(es[k + 1].offset == off);
    assert(es[k + 1].uncompressed_size == pfs[k].size);
    assert(pfs[k].size == d.len() as u64);
    assert((es[k + 1].uncompressed_size as int) == d.len());
    assert(pfs[k].zsizes == file_zsizes(level, cs));
    assert(pfs[k].data == stored_file_bytes(level, cs));
    assert(all_zsizes(pfs.skip(k)) == pfs[k].zsizes + all_zsizes(pfs.skip(k + 1))) by {
        assert(pfs.skip(k).len() > 0);
        assert(pfs.skip(k)[0] == pfs[k]);
        assert(pfs.skip(k).skip(1) =~= pfs.skip(k + 1));
    }
    assert(zidx + cs.len() <= zs_all.len()) by {
        assert(zsizes_before(pfs, k) + pfs[k].zsizes.len() == zsizes_before(pfs, k + 1));
    }
    assert(forall|w: int|
        0 <= w < cs.len() ==> zs_all[zidx + w] == zsize_of_block(level, #[trigger] cs[w])) by {
        assert(forall|w: int|
            0 <= w < cs.len() ==> #[trigger] zs_all[zidx + w] == all_zsizes(pfs)[zsizes_before(
                pfs,
                k,
            ) + w]);
        assert(forall|w: int|
            0 <= w < cs.len() ==> #[trigger] all_zsizes(pfs)[zsizes_before(pfs, k) + w]
                == pfs[k].zsizes[w]);
        assert(forall|w: int|
            0 <= w < cs.len() ==> #[trigger] pfs[k].zsizes[w] == zsize_of_block(level, cs[w]));
    }
    let stored = stored_file_bytes(level, cs);
    assert(data_before(pfs, k) + stored.len() == data_before(pfs, k + 1));
    assert(off + stored.len() <= a.len());
    assert(all_data(pfs.skip(k)) == pfs[k].data + all_data(pfs.skip(k + 1))) by {
        assert(pfs.skip(k).len() > 0);
        assert(pfs.skip(k)[0] == pfs[k]);
        assert(pfs.skip(k).skip(1) =~= pfs.skip(k + 1));
    }
    assert(a.subrange(off, off + stored.len() as int) =~= stored) by {
        assert(forall|w: int|
            0 <= w < stored.len() ==> #[trigger] a[off + w] == all_data(pfs)[data_before(pfs, k)
                + w]);
        assert(forall|w: int|
            0 <= w < stored.len() ==> #[trigger] all_data(pfs)[data_before(pfs, k) + w]
                == pfs[k].data[w]);
    }
    assert(forall|w: int|
        0 <= w < cs.len() ==> (block_compresses(level, #[trigger] cs[w]) ==> zlib_deflate(
            level,
            cs[w],
        ).len() >= 2));
    lemma_cache_encoded(a, zs_all, level, cs, zidx, off, d.len() as int, Seq::empty(), Seq::empty());
    assert(Seq::<u8>::empty() + stored =~= stored);
    assert(Seq::<u16>::empty() + file_zsizes(level, cs) =~= file_zsizes(level, cs));
}

/// Walking the entries of a packed archive from position `i` on caches
/// exactly the remaining packed files.
pub proof fn lemma_cache_list_encoded(
    a: Seq<u8>,
    m: crate::toc::TocModel,
    expected: Seq<crate::cache::CachedFileModel>,
    i: int,
)
    requires
        m.entries.len() == expected.len() + 1,
        1 <= i <= m.entries.len(),
        forall|k: int|
            0 <= k < expected.len() ==> {
                let e = #[trigger] m.entries[k + 1];
                &&& e.name_hash != crate::cache::zero_hash()
                &&& crate::cache::spec_cache_entry(a, m.zsizes, e, m.block_size) == Ok::<
                    crate::cache::CachedFileModel,
                    PsarcError,
                >(expected[k])
            },
    ensures
        crate::cache::spec_cache_list(a, m, i) == expected.skip(i - 1),
    decreases m.entries.len() - i,
{
    if i == m.entries.len() {
        assert(expected.skip(i - 1).len() == 0);
        assert(crate::cache::spec_cache_list(a, m, i) =~= expected.skip(i - 1));
    } else {
        let k = i - 1;
        assert(m.entries[i] == m.entries[k + 1]);
        lemma_cache_list_encoded(a, m, expected, i + 1);
        assert(seq![expected[k]] + expected.skip(i) =~= expected.skip(i - 1));
    }
}

/// The cache a packed archive loads back: every packed file, in order,
/// with its stored bytes and ZSize run verbatim.
pub open spec fn cache_of(ov: Seq<crate::FileInputModel>, level: int) -> Seq<
    crate::cache::CachedFileModel,
> {
    Seq::new(
        ov.len(),
        |k: int|
            crate::cache::CachedFileModel {
                name_hash: name_hash_of(ov[k].path),
                compressed_data: stored_file_bytes(level, spec_chunks(ov[k].data)),
                zsizes: file_zsizes(level, spec_chunks(ov[k].data)),
                uncompressed_size: ov[k].data.len() as u64,
            },
    )
}

/// Loading the cache from a packed archive returns every packed file's
/// stored bytes and ZSize run, keyed by its hash, in order.
#[verifier::rlimit(100)]
#[verifier::spinoff_prover]
pub proof fn lemma_load_cache_of_packed(ov: Seq<crate::FileInputModel>, level: int)
    requires
        spec_pack_fits(
            fresh_packed(ov, level),
            file_zsizes(level, spec_chunks(manifest_of(ov))),
            stored_file_bytes(level, spec_chunks(manifest_of(ov))).len() as int,
            manifest_of(ov).len() as int,
        ),
        forall|i: int| 0 <= i < ov.len() ==> name_hash_of(#[trigger] ov[i].path).len() == 16,
        forall|i: int|
            0 <= i < ov.len() ==> name_hash_of(#[trigger] ov[i].path)
                != crate::cache::zero_hash(),
        forall|i: int| 0 <= i < ov.len() ==> (#[trigger] ov[i]).data.len() < 0x100_0000_0000,
        forall|i: int| 0 <= i < ov.len() ==> codec_facts(level, (#[trigger] ov[i]).data),
    ensures
        ({
            let mbytes = manifest_of(ov);
            let pfs = fresh_packed(ov, level);
            let man_zs = file_zsizes(level, spec_chunks(mbytes));
            let man_data = stored_file_bytes(level, spec_chunks(mbytes));
            let a = spec_pack_bytes(pfs, man_zs, man_data, mbytes.len() as int);
            crate::cache::spec_load_cache(a) == Ok::<
                Seq<crate::cache::CachedFileModel>,
                PsarcError,
            >(cache_of(ov, level))
        }),
{
    let mbytes = manifest_of(ov);
    let pfs = fresh_packed(ov, level);
    let man_zs = file_zsizes(level, spec_chunks(mbytes));
    let man_data = stored_file_bytes(level, spec_chunks(mbytes));
    let man_size = mbytes.len() as int;
    let a = spec_pack_bytes(pfs, man_zs, man_data, man_size);
    let es = spec_pack_entries(pfs, man_zs, man_data.len() as int, man_size);
    lemma_parse_packed(pfs, man_zs, man_data, man_size);
    let m = crate::toc::spec_parse_toc(a, true)->Ok_0;
    assert(crate::toc::spec_parse_toc(a, false) == crate::toc::spec_parse_toc(a, true)) by {
        assert(a.subrange(8, 12) == crate::toc::zlib_tag_bytes());
    }
    let expected = cache_of(ov, level);
    assert forall|k: int| 0 <= k < expected.len() implies {
        let e = #[trigger] m.entries[k + 1];
        &&& e.name_hash != crate::cache::zero_hash()
        &&& crate::cache::spec_cache_entry(a, m.zsizes, e, m.block_size) == Ok::<
            crate::cache::CachedFileModel,
            PsarcError,
        >(expected[k])
    } by {
        assert(m.entries[k + 1] == es[k + 1]);
        assert(es[k + 1].name_hash == pfs[k].name_hash);
        assert(pfs[k].name_hash == name_hash_of(ov[k].path));
        lemma_cache_entry_encoded(ov, level, man_zs, man_data, man_size, k);
    }
    lemma_cache_list_encoded(a, m, expected, 1);
    assert(m.entries[0].name_hash == crate::cache::zero_hash()) by {
        assert(es[0].name_hash == crate::cache::zero_hash());
    }
    assert(crate::cache::spec_cache_list(a, m, 0) == crate::cache::spec_cache_list(a, m, 1));
    assert(expected.skip(0) =~= expected);
}


/// The archive bytes ignore the reuse flags: two packings that agree on
/// every hash, size, ZSize run and data region produce the same bytes.
pub proof fn lemma_pack_bytes_ignore_reuse(
    pfs1: Seq<PackedFileModel>,
    pfs2: Seq<PackedFileModel>,
    man_zs: Seq<u16>,
    man_data: Seq<u8>,
    man_size: int,
)
    requires
        pfs1.len() == pfs2.len(),
        forall|i: int|
            0 <= i < pfs1.len() ==> (#[trigger] pfs1[i]).name_hash == pfs2[i].name_hash
                && pfs1[i].size == pfs2[i].size && pfs1[i].zsizes == pfs2[i].zsizes
                && pfs1[i].data == pfs2[i].data,
    ensures
        spec_pack_bytes(pfs1, man_zs, man_data, man_size) == spec_pack_bytes(
            pfs2,
            man_zs,
            man_data,
            man_size,
        ),
        spec_pack_fits(pfs1, man_zs, man_data.len() as int, man_size) == spec_pack_fits(
            pfs2,
            man_zs,
            man_data.len() as int,
            man_size,
        ),
{
    lemma_all_congruent(pfs1, pfs2);
    assert forall|i: int| 0 <= i <= pfs1.len() implies all_zsizes(#[trigger] pfs1.take(i))
        == all_zsizes(pfs2.take(i)) && all_data(pfs1.take(i)) == all_data(pfs2.take(i)) by {
        assert(pfs1.take(i).len() == pfs2.take(i).len());
        assert(forall|w: int|
            0 <= w < pfs1.take(i).len() ==> (#[trigger] pfs1.take(i)[w]).name_hash == pfs2.take(
                i,
            )[w].name_hash && pfs1.take(i)[w].size == pfs2.take(i)[w].size && pfs1.take(
                i,
            )[w].zsizes == pfs2.take(i)[w].zsizes && pfs1.take(i)[w].data == pfs2.take(
                i,
            )[w].data);
        lemma_all_congruent(pfs1.take(i), pfs2.take(i));
    }
    assert(spec_pack_toc_length(pfs1, man_zs) == spec_pack_toc_length(pfs2, man_zs));
    let es1 = spec_pack_entries(pfs1, man_zs, man_data.len() as int, man_size);
    let es2 = spec_pack_entries(pfs2, man_zs, man_data.len() as int, man_size);
    assert forall|w: int| 0 <= w < es1.len() implies es1[w] == es2[w] by {
        if w > 0 {
            assert(all_zsizes(pfs1.take(w - 1)) == all_zsizes(pfs2.take(w - 1)));
            assert(all_data(pfs1.take(w - 1)) == all_data(pfs2.take(w - 1)));
            assert(pfs1[w - 1].name_hash == pfs2[w - 1].name_hash);
            assert(pfs1[w - 1].size == pfs2[w - 1].size);
        }
    }
    assert(es1 =~= es2);
    assert(spec_pack_fits(pfs1, man_zs, man_data.len() as int, man_size) == spec_pack_fits(
        pfs2,
        man_zs,
        man_data.len() as int,
        man_size,
    )) by {
        assert forall|i: int| 0 <= i < pfs2.len() implies (#[trigger] pfs2[i]).size
            == pfs1[i].size by {
            assert(pfs1[i].size == pfs2[i].size);
        }
    }
}

/// Concatenations agree when every file's run and data agree.
pub proof fn lemma_all_congruent(pfs1: Seq<PackedFileModel>, pfs2: Seq<PackedFileModel>)
    requires
        pfs1.len() == pfs2.len(),
        forall|i: int|
            0 <= i < pfs1.len() ==> (#[trigger] pfs1[i]).name_hash == pfs2[i].name_hash
                && pfs1[i].size == pfs2[i].size && pfs1[i].zsizes == pfs2[i].zsizes
                && pfs1[i].data == pfs2[i].data,
    ensures
        all_zsizes(pfs1) == all_zsizes(pfs2),
        all_data(pfs1) == all_data(pfs2),
    decreases pfs1.len(),
{
    if pfs1.len() > 0 {
        assert(forall|i: int|
            0 <= i < pfs1.skip(1).len() ==> (#[trigger] pfs1.skip(1)[i]).name_hash == pfs2.skip(
                1,
            )[i].name_hash && pfs1.skip(1)[i].size == pfs2.skip(1)[i].size && pfs1.skip(
                1,
            )[i].zsizes == pfs2.skip(1)[i].zsizes && pfs1.skip(1)[i].data == pfs2.skip(
                1,
            )[i].data) by {
            assert(forall|i: int|
                0 <= i < pfs1.skip(1).len() ==> #[trigger] pfs1.skip(1)[i] == pfs1[i + 1]
                    && pfs2.skip(1)[i] == pfs2[i + 1]);
        }
        lemma_all_congruent(pfs1.skip(1), pfs2.skip(1));
        assert(pfs1[0].zsizes == pfs2[0].zsizes && pfs1[0].data == pfs2[0].data);
    }
}

/// Incremental invariance: against the cache loaded from a full pack of
/// the old files, an incremental pack of the new files produces byte for
/// byte the archive a full pack of the new files would, whenever every
/// new file that is reused (not modified, hash found in the cache) is
/// byte-identical to the old file the cache found. With the round-trip
/// law, extracting the incremental archive therefore returns the new
/// files exactly; and a file is reused precisely when it is unmodified
/// and its hash is cached.
#[verifier::rlimit(100)]
#[verifier::spinoff_prover]
pub proof fn lemma_incremental_invariance(
    ov_old: Seq<crate::FileInputModel>,
    ov_new: Seq<crate::FileInputModel>,
    level: int,
    modified: Seq<Seq<u8>>,
    man_zs: Seq<u16>,
    man_data: Seq<u8>,
    man_size: int,
)
    requires
        spec_pack_fits(
            fresh_packed(ov_old, level),
            file_zsizes(level, spec_chunks(manifest_of(ov_old))),
            stored_file_bytes(level, spec_chunks(manifest_of(ov_old))).len() as int,
            manifest_of(ov_old).len() as int,
        ),
        forall|i: int|
            0 <= i < ov_old.len() ==> name_hash_of(#[trigger] ov_old[i].path).len() == 16,
        forall|i: int|
            0 <= i < ov_old.len() ==> name_hash_of(#[trigger] ov_old[i].path)
                != crate::cache::zero_hash(),
        forall|i: int|
            0 <= i < ov_old.len() ==> (#[trigger] ov_old[i]).data.len() < 0x100_0000_0000,
        forall|i: int| 0 <= i < ov_old.len() ==> codec_facts(level, (#[trigger] ov_old[i]).data),
        // The unchanged files are byte-identical: a new file that is not
        // modified and whose hash an old file carries holds that old
        // file's bytes.
        forall|i: int, k: int|
            0 <= i < ov_new.len() && 0 <= k < ov_old.len() && name_hash_of(
                (#[trigger] ov_new[i]).path,
            ) == name_hash_of((#[trigger] ov_old[k]).path) && !modified.contains(ov_new[i].path)
                ==> ov_new[i].data == ov_old[k].data,
    ensures
        ({
            let old_archive = spec_pack_bytes(
                fresh_packed(ov_old, level),
                file_zsizes(level, spec_chunks(manifest_of(ov_old))),
                stored_file_bytes(level, spec_chunks(manifest_of(ov_old))),
                manifest_of(ov_old).len() as int,
            );
            let cache = crate::pack::spec_effective_cache(
                crate::PackingMode::Incremental,
                Some(old_archive),
            );
            let pfs_inc = crate::pack::spec_packed_files(
                ov_new,
                level,
                crate::PackingMode::Incremental,
                modified,
                cache,
            );
            &&& spec_pack_bytes(pfs_inc, man_zs, man_data, man_size) == spec_pack_bytes(
                fresh_packed(ov_new, level),
                man_zs,
                man_data,
                man_size,
            )
            &&& spec_pack_fits(pfs_inc, man_zs, man_data.len() as int, man_size)
                == spec_pack_fits(
                fresh_packed(ov_new, level),
                man_zs,
                man_data.len() as int,
                man_size,
            )
            &&& forall|i: int|
                0 <= i < ov_new.len() ==> (#[trigger] pfs_inc[i]).reused == (!modified.contains(
                    ov_new[i].path,
                ) && crate::cache::spec_cache_find(
                    cache,
                    name_hash_of(ov_new[i].path),
                    0,
                ) >= 0)
        }),
{
    let old_archive = spec_pack_bytes(
        fresh_packed(ov_old, level),
        file_zsizes(level, spec_chunks(manifest_of(ov_old))),
        stored_file_bytes(level, spec_chunks(manifest_of(ov_old))),
        manifest_of(ov_old).len() as int,
    );
    lemma_load_cache_of_packed(ov_old, level);
    let cache = crate::pack::spec_effective_cache(
        crate::PackingMode::Incremental,
        Some(old_archive),
    );
    assert(cache == cache_of(ov_old, level));
    let pfs_inc = crate::pack::spec_packed_files(
        ov_new,
        level,
        crate::PackingMode::Incremental,
        modified,
        cache,
    );
    let pfs_fresh = fresh_packed(ov_new, level);
    assert forall|i: int| 0 <= i < ov_new.len() implies (#[trigger] pfs_inc[i]).name_hash
        == pfs_fresh[i].name_hash && pfs_inc[i].size == pfs_fresh[i].size && pfs_inc[i].zsizes
        == pfs_fresh[i].zsizes && pfs_inc[i].data == pfs_fresh[i].data && pfs_inc[i].reused == (
    !modified.contains(ov_new[i].path) && crate::cache::spec_cache_find(
        cache,
        name_hash_of(ov_new[i].path),
        0,
    ) >= 0) by {
        let h = name_hash_of(ov_new[i].path);
        let j = crate::cache::spec_cache_find(cache, h, 0);
        crate::cache::lemma_cache_find_in_range(cache, h, 0);
        if !modified.contains(ov_new[i].path) && j >= 0 {
            assert(cache[j].name_hash == h);
            assert(cache[j] == cache_of(ov_old, level)[j]);
            assert(name_hash_of(ov_old[j].path) == h);
            assert(ov_new[i].data == ov_old[j].data);
        }
    }
    lemma_pack_bytes_ignore_reuse(pfs_inc, pfs_fresh, man_zs, man_data, man_size);
}


/// The round trip through a full pack run: the archive that
/// `pack_archive` promises for a full pack of the resolved files
/// extracts back to exactly those files, with the stored manifest as
/// entry 0. The resolved order is `resolve_file_order`'s, so by its
/// contract the extracted files are the packed directory's files as a
/// set.
pub proof fn lemma_full_pack_round_trip(
    blob: Option<Seq<u8>>,
    fv: Seq<crate::FileInputModel>,
    level: int,
    modified: Seq<Seq<u8>>,
    cache: Seq<crate::cache::CachedFileModel>,
)
    requires
        ({
            let ov = crate::manifest::spec_resolved_files(blob, fv);
            &&& forall|i: int| 0 <= i < ov.len() ==> wf_path((#[trigger] ov[i]).path)
            &&& forall|i: int, j: int|
                0 <= i < j < ov.len() ==> name_hash_of((#[trigger] ov[i]).path) != name_hash_of(
                    (#[trigger] ov[j]).path,
                )
            &&& forall|i: int|
                0 <= i < ov.len() ==> name_hash_of((#[trigger] ov[i]).path).len() == 16
            &&& forall|i: int|
                0 <= i < ov.len() ==> name_hash_of((#[trigger] ov[i]).path)
                    != crate::cache::zero_hash()
            &&& forall|i: int|
                0 <= i < ov.len() ==> codec_facts(level, (#[trigger] ov[i]).data) && decode_safe(
                    level,
                    ov[i].data,
                )
            &&& codec_facts(level, manifest_of(ov))
            &&& decode_safe(level, manifest_of(ov))
            &&& spec_pack_fits(
                fresh_packed(ov, level),
                file_zsizes(level, spec_chunks(manifest_of(ov))),
                stored_file_bytes(level, spec_chunks(manifest_of(ov))).len() as int,
                manifest_of(ov).len() as int,
            )
        }),
    ensures
        ({
            let ov = crate::manifest::spec_resolved_files(blob, fv);
            let mbytes = crate::manifest::spec_resolved_manifest(blob, fv);
            let pfs = crate::pack::spec_packed_files(
                ov,
                level,
                crate::PackingMode::Full,
                modified,
                cache,
            );
            let man_zs = file_zsizes(level, spec_chunks(mbytes));
            let man_data = stored_file_bytes(level, spec_chunks(mbytes));
            crate::extract::spec_extract(
                spec_pack_bytes(pfs, man_zs, man_data, mbytes.len() as int),
            ) == Ok::<
                (Option<Seq<u8>>, Seq<crate::extract::ExtractedFileModel>),
                PsarcError,
            >((Some(mbytes), expected_extract(ov)))
        }),
{
    let ov = crate::manifest::spec_resolved_files(blob, fv);
    crate::manifest::lemma_resolved_manifest_is_paths(blob, fv);
    assert(crate::manifest::spec_resolved_manifest(blob, fv) == manifest_of(ov)) by {
        assert(Seq::new(ov.len(), |i: int| ov[i].path) =~= paths_of(ov));
    }
    lemma_full_pack_is_fresh(ov, level, modified, cache);
    lemma_pack_extract_round_trip(ov, level);
}


} // verus!
