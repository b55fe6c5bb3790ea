//! The pack pipeline: resolves the file order, compresses the manifest and
//! every file block by block (or splices cached blocks from a prior
//! archive), then lays out header, TOC, ZSize table and data.

use crate::blocks::{append_bytes, encode_file_blocks, file_zsizes, spec_chunks, stored_file_bytes};
use crate::cache::{
    cache_find, cache_views, load_psarc_cache, spec_cache_find, spec_load_cache, zero_hash,
    CachedFileData, CachedFileModel,
};
use crate::hash::{calculate_md5, name_hash_of};
use crate::manifest::{
    manifest_missing, norm_slashes, resolve_file_order, spec_match, spec_resolved_files,
    spec_resolved_manifest,
};
use crate::toc::{
    lemma_entries_bytes_snoc, lemma_zsizes_bytes_snoc, spec_entries_bytes, spec_header_bytes,
    spec_toc_bytes, spec_toc_length, spec_zsizes_bytes, write_entry, write_header, Entry,
    EntryModel,
};
use crate::{file_views, CompressionLevel, FileInput, FileInputModel, PackingMode, PsarcError};
use vstd::prelude::*;

verus! {

/// The mathematical content of one file as it will be stored.
pub ghost struct PackedFileModel {
    /// MD5 of the uppercased internal path.
    pub name_hash: Seq<u8>,
    /// The file's uncompressed size.
    pub size: u64,
    /// The file's ZSize run.
    pub zsizes: Seq<u16>,
    /// The file's stored block bytes, concatenated.
    pub data: Seq<u8>,
    /// Whether the blocks came from the prior archive's cache.
    pub reused: bool,
}

/// One file as it will be stored: its stored block bytes, its ZSize run,
/// and whether those came from the cache.
pub struct PackedFile {
    /// MD5 of the uppercased internal path.
    pub name_hash: Vec<u8>,
    /// The file's uncompressed size.
    pub size: u64,
    /// The file's ZSize run.
    pub zsizes: Vec<u16>,
    /// The file's stored block bytes, concatenated.
    pub data: Vec<u8>,
    /// Whether the blocks came from the prior archive's cache.
    pub reused: bool,
}

impl View for PackedFile {
    type V = PackedFileModel;

    open spec fn view(&self) -> PackedFileModel {
        PackedFileModel {
            name_hash: self.name_hash@,
            size: self.size,
            zsizes: self.zsizes@,
            data: self.data@,
            reused: self.reused,
        }
    }
}

/// The models of a list of packed files, in order.
pub open spec fn packed_views(ps: Seq<PackedFile>) -> Seq<PackedFileModel> {
    Seq::new(ps.len(), |i: int| ps[i]@)
}

/// The modified-path set with backslashes folded to forward slashes.
pub open spec fn spec_norm_modified(ms: Seq<Seq<u8>>) -> Seq<Seq<u8>> {
    ms.map_values(|p: Seq<u8>| norm_slashes(p))
}

/// The cache an incremental pack works against: the prior archive's index
/// when the mode is incremental, a prior archive is given and it loads;
/// empty otherwise.
pub open spec fn spec_effective_cache(mode: PackingMode, prior: Option<Seq<u8>>) -> Seq<
    CachedFileModel,
> {
    if mode is Incremental && prior is Some && spec_load_cache(prior->Some_0) is Ok {
        spec_load_cache(prior->Some_0)->Ok_0
    } else {
        seq![]
    }
}

/// How one file is stored: an incremental pack adopts the cached blocks
/// verbatim when the file is not modified and its hash is in the cache;
/// every other file is chunked and compressed block by block.
pub open spec fn spec_pack_file(
    f: FileInputModel,
    level: int,
    mode: PackingMode,
    modified: Seq<Seq<u8>>,
    cache: Seq<CachedFileModel>,
) -> PackedFileModel {
    let h = name_hash_of(f.path);
    let j = spec_cache_find(cache, h, 0);
    if mode is Incremental && !modified.contains(f.path) && j >= 0 {
        let c = cache[j];
        PackedFileModel {
            name_hash: h,
            size: c.uncompressed_size,
            zsizes: c.zsizes,
            data: c.compressed_data,
            reused: true,
        }
    } else {
        PackedFileModel {
            name_hash: h,
            size: f.data.len() as u64,
            zsizes: file_zsizes(level, spec_chunks(f.data)),
            data: stored_file_bytes(level, spec_chunks(f.data)),
            reused: false,
        }
    }
}

/// All files as they will be stored, in resolved order.
pub open spec fn spec_packed_files(
    ov: Seq<FileInputModel>,
    level: int,
    mode: PackingMode,
    modified: Seq<Seq<u8>>,
    cache: Seq<CachedFileModel>,
) -> Seq<PackedFileModel> {
    Seq::new(ov.len(), |i: int| spec_pack_file(ov[i], level, mode, modified, cache))
}

/// The ZSize runs of all packed files, concatenated.
pub open spec fn all_zsizes(pfs: Seq<PackedFileModel>) -> Seq<u16>
    decreases pfs.len(),
{
    if pfs.len() == 0 {
        seq![]
    } else {
        pfs[0].zsizes + all_zsizes(pfs.skip(1))
    }
}

/// The stored data of all packed files, concatenated.
pub open spec fn all_data(pfs: Seq<PackedFileModel>) -> Seq<u8>
    decreases pfs.len(),
{
    if pfs.len() == 0 {
        seq![]
    } else {
        pfs[0].data + all_data(pfs.skip(1))
    }
}

/// The number of ZSize entries the files before `i` contribute.
pub open spec fn zsizes_before(pfs: Seq<PackedFileModel>, i: int) -> int {
    all_zsizes(pfs.take(i)).len() as int
}

/// The number of data bytes the files before `i` contribute.
pub open spec fn data_before(pfs: Seq<PackedFileModel>, i: int) -> int {
    all_data(pfs.take(i)).len() as int
}

/// Extending the file list by one file appends its ZSize run and its data.
pub proof fn lemma_all_snoc(pfs: Seq<PackedFileModel>, i: int)
    requires
        0 <= i < pfs.len(),
    ensures
        all_zsizes(pfs.take(i + 1)) == all_zsizes(pfs.take(i)) + pfs[i].zsizes,
        all_data(pfs.take(i + 1)) == all_data(pfs.take(i)) + pfs[i].data,
    decreases i,
{
    if i == 0 {
        assert(pfs.take(1) =~= seq![pfs[0]]);
        assert(pfs.take(1).skip(1) =~= Seq::<PackedFileModel>::empty());
        assert(all_zsizes(pfs.take(0)).len() == 0);
        assert(all_zsizes(pfs.take(1).skip(1)).len() == 0);
        assert(all_data(pfs.take(0)).len() == 0);
        assert(all_data(pfs.take(1).skip(1)).len() == 0);
        assert(pfs.take(1)[0] == pfs[0]);
        assert(all_zsizes(pfs.take(1)) =~= all_zsizes(pfs.take(0)) + pfs[0].zsizes);
        assert(all_data(pfs.take(1)) =~= all_data(pfs.take(0)) + pfs[0].data);
    } else {
        lemma_all_snoc(pfs.skip(1), i - 1);
        assert(pfs.take(i + 1).skip(1) =~= pfs.skip(1).take(i));
        assert(pfs.take(i).skip(1) =~= pfs.skip(1).take(i - 1));
        assert(pfs.take(i + 1)[0] == pfs[0]);
        assert(pfs.take(i)[0] == pfs[0]);
        assert(pfs.skip(1)[i - 1] == pfs[i]);
        assert(all_zsizes(pfs.take(i + 1)) =~= all_zsizes(pfs.take(i)) + pfs[i].zsizes);
        assert(all_data(pfs.take(i + 1)) =~= all_data(pfs.take(i)) + pfs[i].data);
    }
}

/// How many of the first `i` files were reused from the cache.
pub open spec fn spec_reused_count(pfs: Seq<PackedFileModel>, i: int) -> int
    decreases i,
{
    if i <= 0 {
        0
    } else {
        spec_reused_count(pfs, i - 1) + (if pfs[i - 1].reused {
            1int
        } else {
            0int
        })
    }
}

/// The TOC length of the packed archive: header, one entry per file plus
/// the manifest entry, and the shared ZSize table.
pub open spec fn spec_pack_toc_length(pfs: Seq<PackedFileModel>, man_zs: Seq<u16>) -> int {
    spec_toc_length(pfs.len() + 1int, man_zs.len() + all_zsizes(pfs).len() as int)
}

/// The TOC entries of the packed archive: entry 0 is the manifest with an
/// all-zero hash and its data first; each file follows with cumulative
/// ZSize index and absolute data offset.
pub open spec fn spec_pack_entries(
    pfs: Seq<PackedFileModel>,
    man_zs: Seq<u16>,
    man_dlen: int,
    man_size: int,
) -> Seq<EntryModel> {
    let tl = spec_pack_toc_length(pfs, man_zs);
    seq![
        EntryModel {
            name_hash: zero_hash(),
            zsize_index: 0,
            uncompressed_size: man_size as u64,
            offset: tl as u64,
        },
    ] + Seq::new(
        pfs.len(),
        |i: int|
            EntryModel {
                name_hash: pfs[i].name_hash,
                zsize_index: (man_zs.len() + zsizes_before(pfs, i)) as u32,
                uncompressed_size: pfs[i].size,
                offset: (tl + man_dlen + data_before(pfs, i)) as u64,
            },
    )
}

/// True when the packed archive fits the wire format: entry count, ZSize
/// count and TOC length in 32 bits, every size and offset in 40 bits.
pub open spec fn spec_pack_fits(
    pfs: Seq<PackedFileModel>,
    man_zs: Seq<u16>,
    man_dlen: int,
    man_size: int,
) -> bool {
    let z = man_zs.len() + all_zsizes(pfs).len();
    let tl = spec_pack_toc_length(pfs, man_zs);
    let total = tl + man_dlen + all_data(pfs).len();
    &&& pfs.len() + 1 <= 0xffff_ffff
    &&& z <= 0xffff_ffff
    &&& tl <= 0xffff_ffff
    &&& total < 0x100_0000_0000
    &&& man_size < 0x100_0000_0000
    &&& forall|i: int| 0 <= i < pfs.len() ==> (#[trigger] pfs[i]).size < 0x100_0000_0000
}

/// The bytes of the packed archive: header, TOC entries, ZSize table, then
/// the manifest's data and every file's data in order.
pub open spec fn spec_pack_bytes(
    pfs: Seq<PackedFileModel>,
    man_zs: Seq<u16>,
    man_data: Seq<u8>,
    man_size: int,
) -> Seq<u8> {
    spec_toc_bytes(
        spec_pack_entries(pfs, man_zs, man_data.len() as int, man_size),
        man_zs + all_zsizes(pfs),
        65536,
    ) + man_data + all_data(pfs)
}

/// What a pack run produces: the archive bytes and how many files were
/// freshly compressed or reused from the cache (the manifest counts as
/// neither).
pub struct PackOutcome {
    /// The complete archive.
    pub archive: Vec<u8>,
    /// Files compressed in this run.
    pub recompressed: usize,
    /// Files whose cached blocks were spliced in unchanged.
    pub reused: usize,
}

/// True when `path` is one of the normalized modified paths.
fn modified_contains(norm_mod: &Vec<Vec<u8>>, path: &[u8]) -> (r: bool)
    ensures
        r == Seq::new(norm_mod@.len(), |i: int| norm_mod@[i]@).contains(path@),
{
    let ghost s = Seq::new(norm_mod@.len(), |i: int| norm_mod@[i]@);
    let n = norm_mod.len();
    let mut i: usize = 0;
    while i < n
        invariant
            0 <= i <= n,
            n == norm_mod@.len(),
            s == Seq::new(norm_mod@.len(), |k: int| norm_mod@[k]@),
            forall|k: int| 0 <= k < i ==> s[k] != path@,
        decreases n - i,
    {
        if crate::wire::bytes_eq(norm_mod[i].as_slice(), path) {
            assert(s[i as int] == path@);
            return true;
        }
        i = i + 1;
    }
    proof {
        if s.contains(path@) {
            let k = choose|k: int| 0 <= k < s.len() && s[k] == path@;
        }
    }
    false
}

/// Folds backslashes to forward slashes in every modified path.
fn normalize_modified(modified: &Vec<Vec<u8>>) -> (r: Vec<Vec<u8>>)
    ensures
        Seq::new(r@.len(), |i: int| r@[i]@) == spec_norm_modified(
            Seq::new(modified@.len(), |i: int| modified@[i]@),
        ),
{
    let n = modified.len();
    let mut r: Vec<Vec<u8>> = Vec::new();
    let mut i: usize = 0;
    while i < n
        invariant
            0 <= i <= n,
            n == modified@.len(),
            r@.len() == i,
            forall|k: int| 0 <= k < i ==> (#[trigger] r@[k])@ == norm_slashes(modified@[k]@),
        decreases n - i,
    {
        let p = modified[i].as_slice();
        let m = p.len();
        let mut q: Vec<u8> = Vec::new();
        let mut j: usize = 0;
        while j < m
            invariant
                0 <= j <= m,
                m == p@.len(),
                q@.len() == j,
                forall|k: int|
                    0 <= k < j ==> q@[k] == (if p@[k] == 0x5c {
                        0x2fu8
                    } else {
                        p@[k]
                    }),
            decreases m - j,
        {
            let c = p[j];
            if c == 0x5c {
                q.push(0x2f);
            } else {
                q.push(c);
            }
            j = j + 1;
        }
        proof {
            assert(q@ =~= norm_slashes(modified@[i as int]@));
        }
        r.push(q);
        i = i + 1;
    }
    proof {
        assert(Seq::new(r@.len(), |i: int| r@[i]@) =~= spec_norm_modified(
            Seq::new(modified@.len(), |i: int| modified@[i]@),
        ));
    }
    r
}

/// Compresses or reuses one file.
fn pack_one_file(
    f: &FileInput,
    level: u32,
    mode: PackingMode,
    norm_mod: &Vec<Vec<u8>>,
    cache: &Vec<CachedFileData>,
) -> (r: PackedFile)
    requires
        level <= 9,
    ensures
        r@ == spec_pack_file(
            f@,
            level as int,
            mode,
            Seq::new(norm_mod@.len(), |i: int| norm_mod@[i]@),
            cache_views(cache@),
        ),
        r@.name_hash.len() == 16,
{
    let h = calculate_md5(f.path.as_slice());
    if mode == PackingMode::Incremental && !modified_contains(norm_mod, f.path.as_slice()) {
        match cache_find(cache, h.as_slice()) {
            Some(j) => {
                proof {
                    crate::cache::lemma_cache_find_in_range(cache_views(cache@), h@, 0);
                }
                let c = &cache[j];
                return PackedFile {
                    name_hash: h,
                    size: c.uncompressed_size,
                    zsizes: c.zsizes.clone(),
                    data: c.compressed_data.clone(),
                    reused: true,
                };
            },
            None => {},
        }
    }
    let (data, zsizes) = encode_file_blocks(f.data.as_slice(), level);
    PackedFile { name_hash: h, size: f.data.len() as u64, zsizes, data, reused: false }
}

/// A prefix's ZSize and data contributions never exceed the totals.
pub proof fn lemma_all_prefix_le(pfs: Seq<PackedFileModel>, i: int)
    requires
        0 <= i <= pfs.len(),
    ensures
        0 <= zsizes_before(pfs, i) <= all_zsizes(pfs).len(),
        0 <= data_before(pfs, i) <= all_data(pfs).len(),
    decreases pfs.len() - i,
{
    if i == pfs.len() {
        assert(pfs.take(i) =~= pfs);
    } else {
        lemma_all_snoc(pfs, i);
        lemma_all_prefix_le(pfs, i + 1);
    }
}

/// Lays the packed parts out as archive bytes: header, TOC entries, ZSize
/// table, manifest data, file data. Fails exactly when the parts do not
/// fit the format's 32-bit table fields and 40-bit offsets.
#[verifier::rlimit(80)]
fn assemble_archive(
    pfs: &Vec<PackedFile>,
    man_zs: &Vec<u16>,
    man_data: &Vec<u8>,
    man_size: u64,
) -> (r: Result<Vec<u8>, PsarcError>)
    requires
        forall|i: int| 0 <= i < pfs@.len() ==> (#[trigger] packed_views(pfs@)[i]).name_hash.len()
            == 16,
    ensures
        ({
            let pv = packed_views(pfs@);
            match r {
                Ok(out) => spec_pack_fits(pv, man_zs@, man_data@.len() as int, man_size as int)
                    && out@ == spec_pack_bytes(pv, man_zs@, man_data@, man_size as int),
                Err(e) => e == PsarcError::ArchiveTooLarge && !spec_pack_fits(
                    pv,
                    man_zs@,
                    man_data@.len() as int,
                    man_size as int,
                ),
            }
        }),
{
    let ghost pv = packed_views(pfs@);
    let n = pfs.len();

    // Totals, in arithmetic wide enough never to overflow; a table or data
    // region already past its cap fails at once.
    let mut z_total: u128 = man_zs.len() as u128;
    let mut d_total: u128 = 0;
    let mut sizes_ok = true;
    let mut i: usize = 0;
    if z_total > 0xffff_ffff {
        proof {
            lemma_all_prefix_le(pv, pv.len() as int);
            assert(pv.take(pv.len() as int) =~= pv);
        }
        return Err(PsarcError::ArchiveTooLarge);
    }
    while i < n
        invariant
            0 <= i <= n,
            n == pfs@.len(),
            pv == packed_views(pfs@),
            z_total == man_zs@.len() + zsizes_before(pv, i as int),
            d_total == data_before(pv, i as int),
            z_total <= 0xffff_ffff,
            d_total < 0x100_0000_0000,
            sizes_ok == forall|k: int|
                0 <= k < i ==> (#[trigger] pv[k]).size < 0x100_0000_0000,
        decreases n - i,
    {
        let pf = &pfs[i];
        proof {
            lemma_all_snoc(pv, i as int);
            assert(pf@ == pv[i as int]);
        }
        z_total = z_total + (pf.zsizes.len() as u128);
        d_total = d_total + (pf.data.len() as u128);
        if pf.size >= 0x100_0000_0000 {
            sizes_ok = false;
        }
        i = i + 1;
        if z_total > 0xffff_ffff {
            proof {
                lemma_all_prefix_le(pv, i as int);
                assert(man_zs@.len() + all_zsizes(pv).len() > 0xffff_ffff);
            }
            return Err(PsarcError::ArchiveTooLarge);
        }
        if d_total >= 0x100_0000_0000 {
            proof {
                lemma_all_prefix_le(pv, i as int);
                assert(spec_pack_toc_length(pv, man_zs@) + man_data@.len() + all_data(
                    pv,
                ).len() >= 0x100_0000_0000);
            }
            return Err(PsarcError::ArchiveTooLarge);
        }
    }
    proof {
        assert(pv.take(n as int) =~= pv);
    }
    let n_entries: u128 = (n as u128) + 1;
    let tl: u128 = 32 + 30 * n_entries + 2 * z_total;
    let total: u128 = tl + (man_data.len() as u128) + d_total;
    if !(n_entries <= 0xffff_ffff && tl <= 0xffff_ffff && total < 0x100_0000_0000 && (man_size
        as u128) < 0x100_0000_0000 && sizes_ok) {
        return Err(PsarcError::ArchiveTooLarge);
    }
    let ghost g_tl = spec_pack_toc_length(pv, man_zs@);
    proof {
        assert(g_tl == tl);
    }

    // The TOC entries: the manifest first, then one entry per file.
    let mut zeros: Vec<u8> = Vec::new();
    let mut zi: usize = 0;
    while zi < 16
        invariant
            0 <= zi <= 16,
            zeros@.len() == zi,
            forall|k: int| 0 <= k < zi ==> zeros@[k] == 0u8,
        decreases 16 - zi,
    {
        zeros.push(0);
        zi = zi + 1;
    }
    proof {
        assert(zeros@ =~= zero_hash());
    }
    let ghost es = spec_pack_entries(pv, man_zs@, man_data@.len() as int, man_size as int);
    let mut entries: Vec<Entry> = Vec::new();
    entries.push(
        Entry {
            name_hash: zeros,
            zsize_index: 0,
            uncompressed_size: man_size,
            offset: tl as u64,
        },
    );
    proof {
        assert(es.len() == pv.len() + 1);
        assert(entries@[0]@ == es[0]);
        assert(entries@[0]@.wf());
    }
    let mut zb: u64 = man_zs.len() as u64;
    let mut db: u64 = (tl as u64) + (man_data.len() as u64);
    let mut i2: usize = 0;
    while i2 < n
        invariant
            0 <= i2 <= n,
            n == pfs@.len(),
            pv == packed_views(pfs@),
            es == spec_pack_entries(pv, man_zs@, man_data@.len() as int, man_size as int),
            es.len() == pv.len() + 1,
            g_tl == spec_pack_toc_length(pv, man_zs@),
            forall|k: int| 0 <= k < pv.len() ==> (#[trigger] pv[k]).name_hash.len() == 16,
            spec_pack_fits(pv, man_zs@, man_data@.len() as int, man_size as int),
            zb == man_zs@.len() + zsizes_before(pv, i2 as int),
            db == g_tl + man_data@.len() + data_before(pv, i2 as int),
            entries@.len() == i2 + 1,
            forall|k: int| 0 <= k < i2 + 1 ==> (#[trigger] entries@[k])@ == es[k],
            forall|k: int| 0 <= k < i2 + 1 ==> (#[trigger] entries@[k])@.wf(),
        decreases n - i2,
    {
        let pf = &pfs[i2];
        proof {
            lemma_all_snoc(pv, i2 as int);
            lemma_all_prefix_le(pv, i2 as int);
            lemma_all_prefix_le(pv, i2 + 1);
            assert(pf@ == pv[i2 as int]);
        }
        let e = Entry {
            name_hash: pf.name_hash.clone(),
            zsize_index: zb as u32,
            uncompressed_size: pf.size,
            offset: db,
        };
        proof {
            assert(e@ == es[i2 + 1]);
            assert(e@.wf());
        }
        entries.push(e);
        zb = zb + (pf.zsizes.len() as u64);
        db = db + (pf.data.len() as u64);
        i2 = i2 + 1;
    }

    // The shared ZSize table: the manifest's run, then every file's.
    let ghost zs_all = man_zs@ + all_zsizes(pv);
    let mut zsall: Vec<u16> = Vec::new();
    let mut zm: usize = 0;
    let mn = man_zs.len();
    while zm < mn
        invariant
            0 <= zm <= mn,
            mn == man_zs@.len(),
            zsall@ == man_zs@.take(zm as int),
        decreases mn - zm,
    {
        zsall.push(man_zs[zm]);
        proof {
            assert(zsall@ =~= man_zs@.take(zm + 1));
        }
        zm = zm + 1;
    }
    proof {
        assert(man_zs@.take(mn as int) =~= man_zs@);
    }
    let mut i3: usize = 0;
    while i3 < n
        invariant
            0 <= i3 <= n,
            n == pfs@.len(),
            pv == packed_views(pfs@),
            zsall@ == man_zs@ + all_zsizes(pv.take(i3 as int)),
        decreases n - i3,
    {
        let pf = &pfs[i3];
        proof {
            lemma_all_snoc(pv, i3 as int);
            assert(pf@ == pv[i3 as int]);
        }
        let ghost pre = zsall@;
        let mut k: usize = 0;
        let kn = pf.zsizes.len();
        while k < kn
            invariant
                0 <= k <= kn,
                kn == pf.zsizes@.len(),
                zsall@ == pre + pf.zsizes@.take(k as int),
            decreases kn - k,
        {
            zsall.push(pf.zsizes[k]);
            proof {
                assert(zsall@ =~= pre + pf.zsizes@.take(k + 1));
            }
            k = k + 1;
        }
        proof {
            assert(pf.zsizes@.take(kn as int) =~= pf.zsizes@);
            assert(zsall@ =~= man_zs@ + all_zsizes(pv.take(i3 + 1)));
        }
        i3 = i3 + 1;
    }
    proof {
        assert(pv.take(n as int) =~= pv);
        assert(zsall@ == zs_all);
    }

    // Serialize: header, entries, ZSize table, then the data regions.
    let mut out: Vec<u8> = Vec::new();
    write_header(&mut out, tl as u32, (n + 1) as u32, 65536);
    let ghost header = spec_header_bytes(tl as u32, (n + 1) as u32, 65536);
    let en = entries.len();
    let mut k2: usize = 0;
    proof {
        assert(spec_entries_bytes(es.take(0)).len() == 0);
        assert(out@ =~= header + spec_entries_bytes(es.take(0)));
    }
    while k2 < en
        invariant
            0 <= k2 <= en,
            en == entries@.len(),
            en == es.len(),
            forall|k: int| 0 <= k < en ==> (#[trigger] entries@[k])@ == es[k],
            forall|k: int| 0 <= k < en ==> (#[trigger] entries@[k])@.wf(),
            out@ == header + spec_entries_bytes(es.take(k2 as int)),
        decreases en - k2,
    {
        write_entry(&mut out, &entries[k2]);
        proof {
            lemma_entries_bytes_snoc(es, k2 as int);
            assert(out@ =~= header + spec_entries_bytes(es.take(k2 + 1)));
        }
        k2 = k2 + 1;
    }
    proof {
        assert(es.take(en as int) =~= es);
    }
    let ghost toc_prefix = header + spec_entries_bytes(es);
    let zn2 = zsall.len();
    let mut k3: usize = 0;
    proof {
        assert(spec_zsizes_bytes(zs_all.take(0)).len() == 0);
        assert(out@ =~= toc_prefix + spec_zsizes_bytes(zs_all.take(0)));
    }
    while k3 < zn2
        invariant
            0 <= k3 <= zn2,
            zn2 == zsall@.len(),
            zsall@ == zs_all,
            out@ == toc_prefix + spec_zsizes_bytes(zs_all.take(k3 as int)),
        decreases zn2 - k3,
    {
        crate::wire::push_be16(&mut out, zsall[k3]);
        proof {
            lemma_zsizes_bytes_snoc(zs_all, k3 as int);
            assert(out@ =~= toc_prefix + spec_zsizes_bytes(zs_all.take(k3 + 1)));
        }
        k3 = k3 + 1;
    }
    proof {
        assert(zs_all.take(zn2 as int) =~= zs_all);
    }
    append_bytes(&mut out, man_data.as_slice());
    let mut i4: usize = 0;
    let ghost pre_data = out@;
    proof {
        assert(all_data(pv.take(0)).len() == 0);
        assert(out@ =~= pre_data + all_data(pv.take(0)));
    }
    while i4 < n
        invariant
            0 <= i4 <= n,
            n == pfs@.len(),
            pv == packed_views(pfs@),
            out@ == pre_data + all_data(pv.take(i4 as int)),
        decreases n - i4,
    {
        let pf = &pfs[i4];
        proof {
            lemma_all_snoc(pv, i4 as int);
            assert(pf@ == pv[i4 as int]);
        }
        append_bytes(&mut out, pf.data.as_slice());
        i4 = i4 + 1;
    }
    proof {
        assert(pv.take(n as int) =~= pv);
        assert(out@ =~= spec_pack_bytes(pv, man_zs@, man_data@, man_size as int));
    }
    Ok(out)
}


/// Compresses or reuses every file, in order, and counts each kind.
fn pack_files(
    ordered: &Vec<FileInput>,
    level: u32,
    mode: PackingMode,
    norm_mod: &Vec<Vec<u8>>,
    cache: &Vec<CachedFileData>,
) -> (r: (Vec<PackedFile>, usize, usize))
    requires
        level <= 9,
    ensures
        ({
            let pfs_spec = spec_packed_files(
                file_views(ordered@),
                level as int,
                mode,
                Seq::new(norm_mod@.len(), |i: int| norm_mod@[i]@),
                cache_views(cache@),
            );
            &&& packed_views(r.0@) == pfs_spec
            &&& forall|k: int|
                0 <= k < pfs_spec.len() ==> (#[trigger] pfs_spec[k]).name_hash.len() == 16
            &&& r.1 + r.2 == pfs_spec.len()
            &&& r.2 == spec_reused_count(pfs_spec, pfs_spec.len() as int)
        }),
{
    let ghost ov = file_views(ordered@);
    let ghost modn = Seq::new(norm_mod@.len(), |i: int| norm_mod@[i]@);
    let ghost pfs_spec = spec_packed_files(ov, level as int, mode, modn, cache_views(cache@));
    let n = ordered.len();
    let mut pfs: Vec<PackedFile> = Vec::new();
    let mut reused: usize = 0;
    let mut recompressed: usize = 0;
    let mut i: usize = 0;
    while i < n
        invariant
            0 <= i <= n,
            n == ordered@.len(),
            level <= 9,
            ov == file_views(ordered@),
            modn == Seq::new(norm_mod@.len(), |k: int| norm_mod@[k]@),
            pfs_spec == spec_packed_files(ov, level as int, mode, modn, cache_views(cache@)),
            pfs_spec.len() == n,
            pfs@.len() == i,
            forall|k: int| 0 <= k < i ==> (#[trigger] pfs@[k])@ == pfs_spec[k],
            forall|k: int| 0 <= k < i ==> (#[trigger] pfs@[k])@.name_hash.len() == 16,
            reused == spec_reused_count(pfs_spec, i as int),
            reused + recompressed == i,
        decreases n - i,
    {
        let pf = pack_one_file(&ordered[i], level, mode, norm_mod, cache);
        proof {
            assert(ordered@[i as int]@ == ov[i as int]);
            assert(pf@ == pfs_spec[i as int]);
        }
        if pf.reused {
            reused = reused + 1;
        } else {
            recompressed = recompressed + 1;
        }
        pfs.push(pf);
        i = i + 1;
    }
    proof {
        assert(packed_views(pfs@) =~= pfs_spec);
        assert forall|k: int|
            0 <= k < pfs_spec.len() implies (#[trigger] pfs_spec[k]).name_hash.len() == 16 by {
            assert(pfs_spec[k] == pfs@[k]@);
        }
    }
    (pfs, recompressed, reused)
}

/// Packs the files into a complete archive. The file order and the
/// manifest come from `resolve_file_order`; the manifest is always freshly
/// compressed; each file is compressed block by block, or, in incremental
/// mode, spliced verbatim from the prior archive's cache when it is not
/// modified and its hash is cached. Returns the archive bytes with the
/// counts of freshly compressed and reused files, an error when the
/// on-disk manifest names missing files, or an error when the output would
/// not fit the format's 32-bit table fields and 40-bit offsets.
#[verifier::rlimit(100)]
#[verifier::spinoff_prover]
pub fn pack_archive(
    files: Vec<FileInput>,
    manifest_blob: Option<Vec<u8>>,
    level: CompressionLevel,
    mode: PackingMode,
    modified: &Vec<Vec<u8>>,
    prior_archive: Option<&[u8]>,
) -> (r: Result<PackOutcome, PsarcError>)
    ensures
        ({
            let fv = file_views(files@);
            let blob = match manifest_blob {
                Some(b) => Some(b@),
                None => None,
            };
            let prior = match prior_archive {
                Some(p) => Some(p@),
                None => None,
            };
            let lvl = level.spec_level() as int;
            let ov = spec_resolved_files(blob, fv);
            let mbytes = spec_resolved_manifest(blob, fv);
            let cache = spec_effective_cache(mode, prior);
            let modn = spec_norm_modified(Seq::new(modified@.len(), |i: int| modified@[i]@));
            let pfs = spec_packed_files(ov, lvl, mode, modn, cache);
            let man_zs = file_zsizes(lvl, spec_chunks(mbytes));
            let man_data = stored_file_bytes(lvl, spec_chunks(mbytes));
            match r {
                Ok(out) => {
                    &&& !manifest_missing(blob, fv)
                    &&& spec_pack_fits(pfs, man_zs, man_data.len() as int, mbytes.len() as int)
                    &&& out.archive@ == spec_pack_bytes(
                        pfs,
                        man_zs,
                        man_data,
                        mbytes.len() as int,
                    )
                    &&& out.reused == spec_reused_count(pfs, pfs.len() as int)
                    &&& out.recompressed + out.reused == pfs.len()
                },
                Err(e) => match e {
                    PsarcError::ManifestReferenceMissing(miss) => {
                        &&& manifest_missing(blob, fv)
                        &&& Seq::new(miss@.len(), |i: int| miss@[i]@) == spec_match(
                            blob->Some_0,
                            fv,
                        ).missing
                    },
                    PsarcError::ArchiveTooLarge => {
                        &&& !manifest_missing(blob, fv)
                        &&& !spec_pack_fits(
                            pfs,
                            man_zs,
                            man_data.len() as int,
                            mbytes.len() as int,
                        )
                    },
                    _ => false,
                },
            }
        }),
{
    let ghost fv = file_views(files@);
    let ghost blobv: Option<Seq<u8>> = match &manifest_blob {
        Some(b) => Some(b@),
        None => None,
    };
    let lvl = level.to_level();
    let resolved = resolve_file_order(files, manifest_blob);
    let (ordered, mbytes) = match resolved {
        Ok(t) => t,
        Err(e) => {
            return Err(e);
        },
    };
    let ghost ov = file_views(ordered@);
    let cache: Vec<CachedFileData> = if mode == PackingMode::Incremental {
        match prior_archive {
            Some(prior) => match load_psarc_cache(prior) {
                Ok(c) => c,
                Err(_) => Vec::new(),
            },
            None => Vec::new(),
        }
    } else {
        Vec::new()
    };
    proof {
        if !(mode is Incremental) || prior_archive is None {
            assert(cache_views(cache@) =~= Seq::<CachedFileModel>::empty());
        } else if spec_load_cache(prior_archive->Some_0@) is Err {
            assert(cache_views(cache@) =~= Seq::<CachedFileModel>::empty());
        }
    }
    let norm_mod = normalize_modified(modified);
    let (man_data, man_zs) = encode_file_blocks(mbytes.as_slice(), lvl);
    let ghost modn = Seq::new(norm_mod@.len(), |i: int| norm_mod@[i]@);
    let ghost pfs_spec = spec_packed_files(ov, lvl as int, mode, modn, cache_views(cache@));
    let (pfs, recompressed, reused) = pack_files(&ordered, lvl, mode, &norm_mod, &cache);
    proof {
        assert(ov == spec_resolved_files(blobv, fv));
        assert(mbytes@ == spec_resolved_manifest(blobv, fv));
        assert(cache_views(cache@) == spec_effective_cache(
            mode,
            match prior_archive {
                Some(p) => Some(p@),
                None => None,
            },
        ));
        assert(modn == spec_norm_modified(Seq::new(modified@.len(), |k: int| modified@[k]@)));
        assert(man_zs@ == file_zsizes(lvl as int, spec_chunks(mbytes@)));
        assert(man_data@ == stored_file_bytes(lvl as int, spec_chunks(mbytes@)));
        assert(reused == spec_reused_count(pfs_spec, pfs_spec.len() as int));
    }
    if (mbytes.len() as u64) >= 0x100_0000_0000 {
        // The manifest entry's 40-bit size field could not hold this.
        proof {
            assert(!spec_pack_fits(
                pfs_spec,
                man_zs@,
                man_data@.len() as int,
                mbytes@.len() as int,
            ));
        }
        return Err(PsarcError::ArchiveTooLarge);
    }
    match assemble_archive(&pfs, &man_zs, &man_data, mbytes.len() as u64) {
        Ok(archive) => Ok(PackOutcome { archive, recompressed, reused }),
        Err(e) => Err(e),
    }
}

} // verus!
