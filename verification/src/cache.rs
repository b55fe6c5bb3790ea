//! The incremental cache: a prior archive indexed by name hash, exposing
//! each entry's raw stored block bytes and ZSize run so an incremental
//! repack can splice them into a new archive without decompressing.

use crate::toc::{parse_toc, spec_parse_toc, TocModel};
use crate::PsarcError;
use vstd::prelude::*;

verus! {

/// The mathematical content of one cached entry.
pub ghost struct CachedFileModel {
    /// The entry's name hash.
    pub name_hash: Seq<u8>,
    /// The raw stored block bytes, concatenated, exactly as on disk.
    pub compressed_data: Seq<u8>,
    /// The entry's run of the prior archive's ZSize table.
    pub zsizes: Seq<u16>,
    /// The entry's uncompressed size.
    pub uncompressed_size: u64,
}

/// Raw stored data of one prior entry: its block bytes (not decompressed),
/// its ZSize run, and its uncompressed size.
pub struct CachedFileData {
    /// The entry's name hash.
    pub name_hash: Vec<u8>,
    /// The raw stored block bytes, concatenated, exactly as on disk.
    pub compressed_data: Vec<u8>,
    /// The entry's run of the prior archive's ZSize table.
    pub zsizes: Vec<u16>,
    /// The entry's uncompressed size.
    pub uncompressed_size: u64,
}

impl View for CachedFileData {
    type V = CachedFileModel;

    open spec fn view(&self) -> CachedFileModel {
        CachedFileModel {
            name_hash: self.name_hash@,
            compressed_data: self.compressed_data@,
            zsizes: self.zsizes@,
            uncompressed_size: self.uncompressed_size,
        }
    }
}

/// The models of a cache list, in order.
pub open spec fn cache_views(cs: Seq<CachedFileData>) -> Seq<CachedFileModel> {
    Seq::new(cs.len(), |i: int| cs[i]@)
}

/// Walking one entry's blocks in the prior archive: each block contributes
/// its raw on-disk bytes and its ZSize, until the uncompressed size is
/// consumed; a ZSize index or block outside the archive fails.
pub open spec fn spec_cache_blocks(
    a: Seq<u8>,
    zs: Seq<u16>,
    z: int,
    off: int,
    remaining: int,
    bs: int,
    accd: Seq<u8>,
    accz: Seq<u16>,
) -> Result<(Seq<u8>, Seq<u16>), PsarcError>
    decreases zs.len() - z,
{
    if remaining <= 0 {
        Ok((accd, accz))
    } else if !(0 <= z < zs.len()) {
        Err(PsarcError::CorruptZSizeIndex)
    } else {
        let csize: int = if zs[z] == 0 {
            bs
        } else {
            zs[z] as int
        };
        if off < 0 || off + csize > a.len() {
            Err(PsarcError::CorruptBlockBounds)
        } else {
            spec_cache_blocks(
                a,
                zs,
                z + 1,
                off + csize,
                if remaining >= bs {
                    remaining - bs
                } else {
                    0
                },
                bs,
                accd + a.subrange(off, off + csize),
                accz + seq![zs[z]],
            )
        }
    }
}

/// What caching one entry of the prior archive `a` yields.
pub open spec fn spec_cache_entry(
    a: Seq<u8>,
    zs: Seq<u16>,
    e: crate::toc::EntryModel,
    bs: u32,
) -> Result<CachedFileModel, PsarcError> {
    match spec_cache_blocks(
        a,
        zs,
        e.zsize_index as int,
        e.offset as int,
        e.uncompressed_size as int,
        bs as int,
        seq![],
        seq![],
    ) {
        Ok((d, z)) => Ok(
            CachedFileModel {
                name_hash: e.name_hash,
                compressed_data: d,
                zsizes: z,
                uncompressed_size: e.uncompressed_size,
            },
        ),
        Err(err) => Err(err),
    }
}

/// Copies one entry's raw stored blocks and ZSize run out of the prior
/// archive, without decompressing anything.
pub fn read_cached_file_data(
    a: &[u8],
    zs: &Vec<u16>,
    e: &crate::toc::Entry,
    block_size: u32,
) -> (r: Result<CachedFileData, PsarcError>)
    ensures
        match r {
            Ok(c) => spec_cache_entry(a@, zs@, e@, block_size) == Ok::<
                CachedFileModel,
                PsarcError,
            >(c@),
            Err(err) => spec_cache_entry(a@, zs@, e@, block_size) == Err::<
                CachedFileModel,
                PsarcError,
            >(err),
        },
{
    let alen = a.len();
    let bs: u64 = block_size as u64;
    let mut accd: Vec<u8> = Vec::new();
    let mut accz: Vec<u16> = Vec::new();
    let mut z: u64 = e.zsize_index as u64;
    let mut off: u64 = e.offset;
    let mut remaining: u64 = e.uncompressed_size;
    let ghost z0 = e.zsize_index as int;
    let ghost off0 = e.offset as int;
    let ghost total = e.uncompressed_size as int;
    loop
        invariant
            alen == a@.len(),
            bs == block_size as u64,
            z0 == e.zsize_index as int,
            off0 == e.offset as int,
            total == e.uncompressed_size as int,
            spec_cache_blocks(a@, zs@, z0, off0, total, bs as int, seq![], seq![])
                == spec_cache_blocks(
                a@,
                zs@,
                z as int,
                off as int,
                remaining as int,
                bs as int,
                accd@,
                accz@,
            ),
        decreases zs@.len() - z + 1,
    {
        if remaining == 0 {
            return Ok(
                CachedFileData {
                    name_hash: e.name_hash.clone(),
                    compressed_data: accd,
                    zsizes: accz,
                    uncompressed_size: e.uncompressed_size,
                },
            );
        }
        if z >= (zs.len() as u64) {
            return Err(PsarcError::CorruptZSizeIndex);
        }
        let zv = zs[z as usize];
        let csize: u64 = if zv == 0 {
            bs
        } else {
            zv as u64
        };
        if off > (alen as u64) || csize > (alen as u64) - off {
            return Err(PsarcError::CorruptBlockBounds);
        }
        let slice = vstd::slice::slice_subrange(a, off as usize, (off + csize) as usize);
        let ghost pre_z = accz@;
        crate::blocks::append_bytes(&mut accd, slice);
        accz.push(zv);
        proof {
            assert(accz@ =~= pre_z + seq![zv]);
        }
        z = z + 1;
        off = off + csize;
        remaining = if remaining >= bs {
            remaining - bs
        } else {
            0
        };
    }
}

/// The cache built from the parsed prior archive, walking entries from
/// position `i`: entries whose hash is all zeros (the manifest) are
/// skipped, and an entry whose blocks cannot be read is skipped too.
pub open spec fn spec_cache_list(a: Seq<u8>, m: TocModel, i: int) -> Seq<CachedFileModel>
    decreases m.entries.len() - i,
{
    if i < 0 || i >= m.entries.len() {
        seq![]
    } else {
        let e = m.entries[i];
        let rest = spec_cache_list(a, m, i + 1);
        if e.name_hash == zero_hash() {
            rest
        } else {
            match spec_cache_entry(a, m.zsizes, e, m.block_size) {
                Ok(c) => seq![c] + rest,
                Err(_) => rest,
            }
        }
    }
}

/// The all-zero hash that marks the manifest entry.
pub open spec fn zero_hash() -> Seq<u8> {
    Seq::new(16, |i: int| 0u8)
}

/// What loading a cache from the prior archive bytes `a` yields: the
/// archive is parsed (magic only; the compression tag is not checked) and
/// every readable non-manifest entry is indexed.
pub open spec fn spec_load_cache(a: Seq<u8>) -> Result<Seq<CachedFileModel>, PsarcError> {
    match spec_parse_toc(a, false) {
        Ok(m) => Ok(spec_cache_list(a, m, 0)),
        Err(e) => Err(e),
    }
}

/// Indexes a prior archive for incremental packing: parses its TOC and
/// records, for every non-manifest entry that can be read, the raw stored
/// block bytes, the ZSize run and the uncompressed size under the entry's
/// name hash. Unreadable entries are skipped; the cache is best effort.
pub fn load_psarc_cache(a: &[u8]) -> (r: Result<Vec<CachedFileData>, PsarcError>)
    ensures
        match r {
            Ok(cs) => spec_load_cache(a@) == Ok::<Seq<CachedFileModel>, PsarcError>(
                cache_views(cs@),
            ),
            Err(e) => spec_load_cache(a@) == Err::<Seq<CachedFileModel>, PsarcError>(e),
        },
{
    let parsed = parse_toc(a, false);
    let (entries, zsizes, block_size) = match parsed {
        Ok(t) => t,
        Err(e) => {
            return Err(e);
        },
    };
    let ghost m = spec_parse_toc(a@, false)->Ok_0;
    let zero: [u8; 16] = [0, 0, 0, 0, 0, 0, 0, 0, 0, 0, 0, 0, 0, 0, 0, 0];
    proof {
        assert(zero@ =~= zero_hash());
    }
    let n = entries.len();
    let mut out: Vec<CachedFileData> = Vec::new();
    let ghost mut gout: Seq<CachedFileModel> = Seq::empty();
    let mut i: usize = 0;
    proof {
        assert(spec_cache_list(a@, m, 0) =~= gout + spec_cache_list(a@, m, 0));
    }
    while i < n
        invariant
            0 <= i <= n,
            n == entries@.len(),
            n == m.entries.len(),
            zero@ == zero_hash(),
            zsizes@ == m.zsizes,
            block_size == m.block_size,
            forall|j: int| 0 <= j < n ==> (#[trigger] entries@[j])@ == m.entries[j],
            gout.len() == out@.len(),
            forall|j: int| 0 <= j < out@.len() ==> (#[trigger] out@[j])@ == gout[j],
            spec_cache_list(a@, m, 0) == gout + spec_cache_list(a@, m, i as int),
        decreases n - i,
    {
        let e = &entries[i];
        proof {
            assert(spec_cache_list(a@, m, i as int) == (if m.entries[i as int].name_hash
                == zero_hash() {
                spec_cache_list(a@, m, i + 1)
            } else {
                match spec_cache_entry(a@, m.zsizes, m.entries[i as int], m.block_size) {
                    Ok(c) => seq![c] + spec_cache_list(a@, m, i + 1),
                    Err(_) => spec_cache_list(a@, m, i + 1),
                }
            }));
        }
        if !crate::wire::bytes_eq(e.name_hash.as_slice(), zero.as_slice()) {
            match read_cached_file_data(a, &zsizes, e, block_size) {
                Ok(c) => {
                    proof {
                        gout = gout + seq![c@];
                        assert(gout + spec_cache_list(a@, m, i + 1) =~= (gout.drop_last()) + (
                        seq![c@] + spec_cache_list(a@, m, i + 1)));
                    }
                    out.push(c);
                },
                Err(_) => {},
            }
        }
        i = i + 1;
    }
    proof {
        assert(spec_cache_list(a@, m, n as int).len() == 0);
        assert(gout =~= spec_cache_list(a@, m, 0));
        assert(cache_views(out@) =~= gout);
    }
    Ok(out)
}

/// The index of the first cache item with hash `h` from position `i` on,
/// or `-1` when there is none.
pub open spec fn spec_cache_find(cs: Seq<CachedFileModel>, h: Seq<u8>, i: int) -> int
    decreases cs.len() - i,
{
    if i < 0 || i >= cs.len() {
        -1
    } else if cs[i].name_hash == h {
        i
    } else {
        spec_cache_find(cs, h, i + 1)
    }
}

/// Finds the first cache item whose hash is `h`.
pub fn cache_find(cs: &Vec<CachedFileData>, h: &[u8]) -> (r: Option<usize>)
    ensures
        match r {
            Some(j) => j < cs@.len() && spec_cache_find(cache_views(cs@), h@, 0) == j as int,
            None => spec_cache_find(cache_views(cs@), h@, 0) == -1,
        },
{
    let ghost cv = cache_views(cs@);
    let n = cs.len();
    let mut j: usize = 0;
    while j < n
        invariant
            0 <= j <= n,
            n == cs@.len(),
            cv == cache_views(cs@),
            spec_cache_find(cv, h@, 0) == spec_cache_find(cv, h@, j as int),
        decreases n - j,
    {
        if crate::wire::bytes_eq(cs[j].name_hash.as_slice(), h) {
            assert(cv[j as int].name_hash == h@);
            return Some(j);
        }
        assert(cv[j as int].name_hash != h@);
        j = j + 1;
    }
    None
}

/// A found cache index lies inside the list and carries the hash.
pub proof fn lemma_cache_find_in_range(cs: Seq<CachedFileModel>, h: Seq<u8>, i: int)
    requires
        0 <= i,
    ensures
        spec_cache_find(cs, h, i) == -1 || i <= spec_cache_find(cs, h, i) < cs.len(),
        spec_cache_find(cs, h, i) >= 0 ==> cs[spec_cache_find(cs, h, i)].name_hash == h,
    decreases cs.len() - i,
{
    if !(i < 0 || i >= cs.len()) && !(cs[i].name_hash == h) {
        lemma_cache_find_in_range(cs, h, i + 1);
    }
}

} // verus!
