//! The table of contents: the 32-byte header, the 30-byte entries with
//! their 40-bit fields, and the ZSize table, serialized to and parsed from
//! archive bytes.

use crate::wire::{
    be16_bytes, be16_val, be32_bytes, be32_val, be40_bytes, be40_val, bytes_eq_at,
    lemma_be40_val_range, push_be16, push_be32, push_be40, read_be16, read_be32, read_be40,
};
use crate::PsarcError;
use vstd::prelude::*;

verus! {

/// The mathematical content of one TOC entry.
pub ghost struct EntryModel {
    /// MD5 of the uppercased internal path; all zeros for the manifest.
    pub name_hash: Seq<u8>,
    /// Index into the shared ZSize table where this entry's blocks start.
    pub zsize_index: u32,
    /// Uncompressed byte length (40 bits on disk).
    pub uncompressed_size: u64,
    /// Absolute byte offset of the first stored block (40 bits on disk).
    pub offset: u64,
}

impl EntryModel {
    /// A model that fits the wire format: a 16-byte hash and 40-bit fields.
    pub open spec fn wf(self) -> bool {
        &&& self.name_hash.len() == 16
        &&& self.uncompressed_size < 0x100_0000_0000
        &&& self.offset < 0x100_0000_0000
    }
}

/// One TOC entry as held in memory.
pub struct Entry {
    /// MD5 of the uppercased internal path; all zeros for the manifest.
    pub name_hash: Vec<u8>,
    /// Index into the shared ZSize table where this entry's blocks start.
    pub zsize_index: u32,
    /// Uncompressed byte length (40 bits on disk).
    pub uncompressed_size: u64,
    /// Absolute byte offset of the first stored block (40 bits on disk).
    pub offset: u64,
}

impl View for Entry {
    type V = EntryModel;

    open spec fn view(&self) -> EntryModel {
        EntryModel {
            name_hash: self.name_hash@,
            zsize_index: self.zsize_index,
            uncompressed_size: self.uncompressed_size,
            offset: self.offset,
        }
    }
}

/// The archive magic `"PSAR"`.
pub open spec fn magic_bytes() -> Seq<u8> {
    seq![0x50u8, 0x53u8, 0x41u8, 0x52u8]
}

/// The compression tag `"zlib"`.
pub open spec fn zlib_tag_bytes() -> Seq<u8> {
    seq![0x7au8, 0x6cu8, 0x69u8, 0x62u8]
}

/// The length in bytes of header, entry table and ZSize table together,
/// which is what the header's `toc_length` field holds.
pub open spec fn spec_toc_length(n_entries: int, n_zsizes: int) -> int {
    32 + 30 * n_entries + 2 * n_zsizes
}

/// The 32-byte header: magic, version 1.4, tag `"zlib"`, `toc_length`,
/// entry size 30, entry count, block size and the ignore-case flag.
pub open spec fn spec_header_bytes(toc_length: u32, n_entries: u32, block_size: u32) -> Seq<u8> {
    magic_bytes() + be16_bytes(1) + be16_bytes(4) + zlib_tag_bytes() + be32_bytes(toc_length)
        + be32_bytes(30) + be32_bytes(n_entries) + be32_bytes(block_size) + be32_bytes(1)
}

/// The 30 bytes of one entry: hash, ZSize index, then the two 40-bit
/// fields.
pub open spec fn spec_entry_bytes(e: EntryModel) -> Seq<u8> {
    e.name_hash + be32_bytes(e.zsize_index) + be40_bytes(e.uncompressed_size) + be40_bytes(e.offset)
}

/// The entry table: each entry's 30 bytes in order.
pub open spec fn spec_entries_bytes(es: Seq<EntryModel>) -> Seq<u8>
    decreases es.len(),
{
    if es.len() == 0 {
        seq![]
    } else {
        spec_entry_bytes(es[0]) + spec_entries_bytes(es.skip(1))
    }
}

/// The ZSize table: each 16-bit value big-endian in order.
pub open spec fn spec_zsizes_bytes(zs: Seq<u16>) -> Seq<u8>
    decreases zs.len(),
{
    if zs.len() == 0 {
        seq![]
    } else {
        be16_bytes(zs[0]) + spec_zsizes_bytes(zs.skip(1))
    }
}

/// Header, entry table and ZSize table in their on-disk order.
pub open spec fn spec_toc_bytes(es: Seq<EntryModel>, zs: Seq<u16>, block_size: u32) -> Seq<u8> {
    spec_header_bytes(
        spec_toc_length(es.len() as int, zs.len() as int) as u32,
        es.len() as u32,
        block_size,
    ) + spec_entries_bytes(es) + spec_zsizes_bytes(zs)
}

/// Extending the serialized entry table by one entry appends its 30 bytes.
pub proof fn lemma_entries_bytes_snoc(es: Seq<EntryModel>, i: int)
    requires
        0 <= i < es.len(),
    ensures
        spec_entries_bytes(es.take(i + 1)) == spec_entries_bytes(es.take(i)) + spec_entry_bytes(
            es[i],
        ),
    decreases i,
{
    if i == 0 {
        assert(es.take(1) =~= seq![es[0]]);
        assert(es.take(1).skip(1) =~= Seq::<EntryModel>::empty());
        assert(spec_entries_bytes(es.take(0)).len() == 0);
        assert(spec_entries_bytes(es.take(1).skip(1)).len() == 0);
        assert(es.take(1)[0] == es[0]);
        assert(spec_entries_bytes(es.take(1)) =~= spec_entries_bytes(es.take(0))
            + spec_entry_bytes(es[0]));
    } else {
        lemma_entries_bytes_snoc(es.skip(1), i - 1);
        assert(es.take(i + 1).skip(1) =~= es.skip(1).take(i));
        assert(es.take(i).skip(1) =~= es.skip(1).take(i - 1));
        assert(es.take(i + 1)[0] == es[0]);
        assert(es.take(i)[0] == es[0]);
        assert(es.skip(1)[i - 1] == es[i]);
        assert(spec_entries_bytes(es.take(i + 1)) =~= spec_entries_bytes(es.take(i))
            + spec_entry_bytes(es[i]));
    }
}

/// Extending the serialized ZSize table by one value appends its two bytes.
pub proof fn lemma_zsizes_bytes_snoc(zs: Seq<u16>, i: int)
    requires
        0 <= i < zs.len(),
    ensures
        spec_zsizes_bytes(zs.take(i + 1)) == spec_zsizes_bytes(zs.take(i)) + be16_bytes(zs[i]),
    decreases i,
{
    if i == 0 {
        assert(zs.take(1) =~= seq![zs[0]]);
        assert(zs.take(1).skip(1) =~= Seq::<u16>::empty());
        assert(spec_zsizes_bytes(zs.take(0)).len() == 0);
        assert(spec_zsizes_bytes(zs.take(1).skip(1)).len() == 0);
        assert(zs.take(1)[0] == zs[0]);
        assert(spec_zsizes_bytes(zs.take(1)) =~= spec_zsizes_bytes(zs.take(0)) + be16_bytes(
            zs[0],
        ));
    } else {
        lemma_zsizes_bytes_snoc(zs.skip(1), i - 1);
        assert(zs.take(i + 1).skip(1) =~= zs.skip(1).take(i));
        assert(zs.take(i).skip(1) =~= zs.skip(1).take(i - 1));
        assert(zs.take(i + 1)[0] == zs[0]);
        assert(zs.take(i)[0] == zs[0]);
        assert(zs.skip(1)[i - 1] == zs[i]);
        assert(spec_zsizes_bytes(zs.take(i + 1)) =~= spec_zsizes_bytes(zs.take(i)) + be16_bytes(
            zs[i],
        ));
    }
}

/// Every serialized entry takes 30 bytes.
pub proof fn lemma_entries_bytes_len(es: Seq<EntryModel>)
    requires
        forall|i: int| 0 <= i < es.len() ==> (#[trigger] es[i]).wf(),
    ensures
        spec_entries_bytes(es).len() == 30 * es.len(),
    decreases es.len(),
{
    if es.len() > 0 {
        lemma_entries_bytes_len(es.skip(1));
        assert(es[0].wf());
        assert(spec_entry_bytes(es[0]).len() == 30);
    }
}

/// Every serialized ZSize takes 2 bytes.
pub proof fn lemma_zsizes_bytes_len(zs: Seq<u16>)
    ensures
        spec_zsizes_bytes(zs).len() == 2 * zs.len(),
    decreases zs.len(),
{
    if zs.len() > 0 {
        lemma_zsizes_bytes_len(zs.skip(1));
    }
}

/// Appends the 32-byte header to `out`.
pub fn write_header(out: &mut Vec<u8>, toc_length: u32, n_entries: u32, block_size: u32)
    ensures
        final(out)@ == old(out)@ + spec_header_bytes(toc_length, n_entries, block_size),
{
    out.push(0x50);
    out.push(0x53);
    out.push(0x41);
    out.push(0x52);
    push_be16(out, 1);
    push_be16(out, 4);
    out.push(0x7a);
    out.push(0x6c);
    out.push(0x69);
    out.push(0x62);
    push_be32(out, toc_length);
    push_be32(out, 30);
    push_be32(out, n_entries);
    push_be32(out, block_size);
    push_be32(out, 1);
    assert(final(out)@ =~= old(out)@ + spec_header_bytes(toc_length, n_entries, block_size));
}

/// Appends the 30 bytes of one entry to `out`.
pub fn write_entry(out: &mut Vec<u8>, e: &Entry)
    requires
        e@.wf(),
    ensures
        final(out)@ == old(out)@ + spec_entry_bytes(e@),
{
    crate::blocks::append_bytes(out, e.name_hash.as_slice());
    push_be32(out, e.zsize_index);
    push_be40(out, e.uncompressed_size);
    push_be40(out, e.offset);
    assert(final(out)@ =~= old(out)@ + spec_entry_bytes(e@));
}

/// What parsing the fixed-layout part of an archive yields.
pub ghost struct TocModel {
    /// The TOC entries, in on-disk order.
    pub entries: Seq<EntryModel>,
    /// The shared ZSize table.
    pub zsizes: Seq<u16>,
    /// The block size the header declares.
    pub block_size: u32,
    /// The header's `toc_length` field.
    pub toc_length: u32,
}

/// The entry decoded from the 30 bytes at `p` in `a`.
pub open spec fn spec_entry_at(a: Seq<u8>, p: int) -> EntryModel
    recommends
        0 <= p,
        p + 30 <= a.len(),
{
    EntryModel {
        name_hash: a.subrange(p, p + 16),
        zsize_index: be32_val(a.subrange(p + 16, p + 20)) as u32,
        uncompressed_size: be40_val(a.subrange(p + 20, p + 25)) as u64,
        offset: be40_val(a.subrange(p + 25, p + 30)) as u64,
    }
}

/// What parsing the header, entry table and ZSize table of `a` yields.
/// The magic is checked first; then, when `require_zlib` is set, the
/// compression tag; then every region the header announces must lie inside
/// `a`, and `toc_length` must cover the header and the entry table so the
/// ZSize count `(toc_length - 32 - 30 n) / 2` is well defined.
pub open spec fn spec_parse_toc(a: Seq<u8>, require_zlib: bool) -> Result<TocModel, PsarcError> {
    if a.len() < 4 || a.subrange(0, 4) != magic_bytes() {
        Err(PsarcError::BadMagic)
    } else if a.len() < 12 {
        Err(PsarcError::CorruptOffset)
    } else if require_zlib && a.subrange(8, 12) != zlib_tag_bytes() {
        Err(PsarcError::UnsupportedCompression)
    } else if a.len() < 32 {
        Err(PsarcError::CorruptOffset)
    } else {
        let toc_length = be32_val(a.subrange(12, 16));
        let n = be32_val(a.subrange(20, 24));
        let block_size = be32_val(a.subrange(24, 28));
        if 32 + 30 * n > a.len() {
            Err(PsarcError::CorruptOffset)
        } else if toc_length < 32 + 30 * n {
            Err(PsarcError::CorruptOffset)
        } else {
            let zcount = (toc_length - 32 - 30 * n) / 2;
            if 32 + 30 * n + 2 * zcount > a.len() {
                Err(PsarcError::CorruptOffset)
            } else {
                Ok(
                    TocModel {
                        entries: Seq::new(n as nat, |i: int| spec_entry_at(a, 32 + 30 * i)),
                        zsizes: Seq::new(
                            zcount as nat,
                            |i: int|
                                be16_val(
                                    a.subrange(32 + 30 * n + 2 * i, 32 + 30 * n + 2 * i + 2),
                                ) as u16,
                        ),
                        block_size: block_size as u32,
                        toc_length: toc_length as u32,
                    },
                )
            }
        }
    }
}

/// Parses the header, entry table and ZSize table of `a`, checking the
/// magic and (for `require_zlib`) the compression tag, and that every
/// region the header announces lies inside `a`.
pub fn parse_toc(a: &[u8], require_zlib: bool) -> (r: Result<(Vec<Entry>, Vec<u16>, u32), PsarcError>)
    ensures
        match r {
            Ok((es, zs, bs)) => {
                &&& spec_parse_toc(a@, require_zlib) matches Ok(m)
                &&& m.entries.len() == es@.len()
                &&& forall|i: int| 0 <= i < es@.len() ==> (#[trigger] es@[i])@ == m.entries[i]
                &&& forall|i: int| 0 <= i < es@.len() ==> (#[trigger] es@[i])@.wf()
                &&& zs@ == m.zsizes
                &&& bs == m.block_size
            },
            Err(e) => spec_parse_toc(a@, require_zlib) == Err::<TocModel, PsarcError>(e),
        },
{
    let alen = a.len();
    let magic: [u8; 4] = [0x50, 0x53, 0x41, 0x52];
    let tag: [u8; 4] = [0x7a, 0x6c, 0x69, 0x62];
    proof {
        assert(magic@ =~= magic_bytes());
        assert(tag@ =~= zlib_tag_bytes());
    }
    if alen < 4 || !bytes_eq_at(a, 0, magic.as_slice()) {
        return Err(PsarcError::BadMagic);
    }
    if alen < 12 {
        return Err(PsarcError::CorruptOffset);
    }
    if require_zlib && !bytes_eq_at(a, 8, tag.as_slice()) {
        return Err(PsarcError::UnsupportedCompression);
    }
    if alen < 32 {
        return Err(PsarcError::CorruptOffset);
    }
    let toc_length = read_be32(a, 12);
    let n = read_be32(a, 20);
    let block_size = read_be32(a, 24);
    let n64 = n as u64;
    if 32 + 30 * n64 > alen as u64 {
        return Err(PsarcError::CorruptOffset);
    }
    if (toc_length as u64) < 32 + 30 * n64 {
        return Err(PsarcError::CorruptOffset);
    }
    let zcount = ((toc_length as u64) - 32 - 30 * n64) / 2;
    if 32 + 30 * n64 + 2 * zcount > alen as u64 {
        return Err(PsarcError::CorruptOffset);
    }
    let ghost m = spec_parse_toc(a@, require_zlib) ->Ok_0;
    let mut entries: Vec<Entry> = Vec::new();
    let mut i: usize = 0;
    let nn = n as usize;
    while i < nn
        invariant
            0 <= i <= nn,
            nn == n,
            alen == a@.len(),
            32 + 30 * (nn as int) <= alen,
            m.entries.len() == nn,
            forall|j: int| 0 <= j < nn ==> m.entries[j] == spec_entry_at(a@, 32 + 30 * j),
            entries@.len() == i,
            forall|j: int| 0 <= j < i ==> (#[trigger] entries@[j])@ == m.entries[j],
            forall|j: int| 0 <= j < i ==> (#[trigger] entries@[j])@.wf(),
        decreases nn - i,
    {
        let p: usize = 32 + 30 * i;
        let name_hash = vstd::slice::slice_to_vec(vstd::slice::slice_subrange(a, p, p + 16));
        let zsize_index = read_be32(a, p + 16);
        let uncompressed_size = read_be40(a, p + 20);
        let offset = read_be40(a, p + 25);
        let e = Entry { name_hash, zsize_index, uncompressed_size, offset };
        proof {
            lemma_be40_val_range(a@.subrange(p + 20, p + 25));
            lemma_be40_val_range(a@.subrange(p + 25, p + 30));
            assert(e@ == spec_entry_at(a@, 32 + 30 * (i as int)));
        }
        entries.push(e);
        i = i + 1;
    }
    let zstart: usize = 32 + 30 * nn;
    let zn = zcount as usize;
    let mut zsizes: Vec<u16> = Vec::new();
    let mut k: usize = 0;
    while k < zn
        invariant
            0 <= k <= zn,
            alen == a@.len(),
            zstart == 32 + 30 * (m.entries.len() as int),
            m.entries.len() == n,
            zn == zcount,
            zstart + 2 * (zn as int) <= alen,
            m.zsizes.len() == zn,
            forall|j: int|
                0 <= j < zn ==> m.zsizes[j] == be16_val(
                    a@.subrange(zstart + 2 * j, zstart + 2 * j + 2),
                ) as u16,
            zsizes@.len() == k,
            forall|j: int| 0 <= j < k ==> zsizes@[j] == m.zsizes[j],
        decreases zn - k,
    {
        let v = read_be16(a, zstart + 2 * k);
        proof {
            crate::wire::lemma_be16_val_range(a@.subrange(
                zstart + 2 * (k as int),
                zstart + 2 * (k as int) + 2,
            ));
        }
        zsizes.push(v);
        k = k + 1;
    }
    assert(zsizes@ =~= m.zsizes);
    Ok((entries, zsizes, block_size))
}

} // verus!
