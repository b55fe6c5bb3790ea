//! The extract pipeline: parses header, TOC and ZSize table, rebuilds file
//! names from the manifest entry, and decodes every entry's blocks.

use crate::blocks::{decode_entry_data, spec_decode_entry};
use crate::cache::zero_hash;
use crate::hash::{calculate_md5, name_hash_of};
use crate::manifest::{is_ws, trim_ws};
use crate::toc::{parse_toc, spec_parse_toc, Entry, EntryModel, TocModel};
use crate::PsarcError;
use vstd::prelude::*;

verus! {

/// Decodes the data of one entry, following the ZSize table from the
/// entry's index and reading stored blocks at its offset.
pub fn read_file_data(a: &[u8], e: &Entry, zs: &Vec<u16>, block_size: u32) -> (r: Result<
    Vec<u8>,
    PsarcError,
>)
    ensures
        match r {
            Ok(v) => spec_decode_entry(
                a@,
                zs@,
                e@.zsize_index,
                e@.offset,
                e@.uncompressed_size,
                block_size,
            ) == Ok::<Seq<u8>, PsarcError>(v@),
            Err(err) => spec_decode_entry(
                a@,
                zs@,
                e@.zsize_index,
                e@.offset,
                e@.uncompressed_size,
                block_size,
            ) == Err::<Seq<u8>, PsarcError>(err),
        },
{
    decode_entry_data(a, zs, e.zsize_index, e.offset, e.uncompressed_size, block_size)
}

/// `c` with ASCII uppercase letters folded to lowercase; all other bytes
/// unchanged.
pub open spec fn lower_byte(c: u8) -> u8 {
    if 0x41 <= c <= 0x5a {
        (c + 0x20) as u8
    } else {
        c
    }
}

/// `s` with every ASCII uppercase letter folded to lowercase.
pub open spec fn lower_ascii(s: Seq<u8>) -> Seq<u8> {
    s.map_values(|c: u8| lower_byte(c))
}

/// Folds every ASCII uppercase letter of `p` to lowercase.
pub fn to_lower_ascii(p: &[u8]) -> (r: Vec<u8>)
    ensures
        r@ == lower_ascii(p@),
{
    let n = p.len();
    let mut r: Vec<u8> = Vec::with_capacity(n);
    let mut i: usize = 0;
    while i < n
        invariant
            0 <= i <= n,
            n == p@.len(),
            r@.len() == i,
            forall|j: int| 0 <= j < i ==> r@[j] == lower_byte(p@[j]),
        decreases n - i,
    {
        let c = p[i];
        if 0x41 <= c && c <= 0x5a {
            r.push(c + 0x20);
        } else {
            r.push(c);
        }
        i = i + 1;
    }
    assert(r@ =~= lower_ascii(p@));
    r
}

/// The manifest split on newline or NUL bytes; empty pieces are kept.
pub open spec fn split_names(t: Seq<u8>) -> Seq<Seq<u8>>
    decreases t.len(),
{
    if t.len() == 0 {
        seq![seq![]]
    } else {
        let rest = split_names(t.drop_last());
        if t.last() == 0x0a || t.last() == 0x00 {
            rest + seq![seq![]]
        } else {
            rest.update(rest.len() - 1, rest.last().push(t.last()))
        }
    }
}

/// `split_names` never yields an empty list of pieces.
pub proof fn lemma_split_names_nonempty(t: Seq<u8>)
    ensures
        split_names(t).len() >= 1,
    decreases t.len(),
{
    if t.len() > 0 {
        lemma_split_names_nonempty(t.drop_last());
    }
}

/// The trimmed, nonempty names of the manifest pieces.
pub open spec fn trimmed_names(pieces: Seq<Seq<u8>>) -> Seq<Seq<u8>>
    decreases pieces.len(),
{
    if pieces.len() == 0 {
        seq![]
    } else {
        let n0 = trim_ws(pieces[0]);
        (if n0.len() == 0 {
            seq![]
        } else {
            seq![n0]
        }) + trimmed_names(pieces.skip(1))
    }
}

/// The names listed in a manifest blob: split on newline or NUL, trimmed,
/// empty lines discarded.
pub open spec fn spec_manifest_names(t: Seq<u8>) -> Seq<Seq<u8>> {
    trimmed_names(split_names(t))
}

/// One record of the hash-to-name map.
pub ghost struct NameMapEntryModel {
    /// A name hash under which the name can be found.
    pub hash: Seq<u8>,
    /// The original manifest line.
    pub name: Seq<u8>,
}

/// One record of the hash-to-name map.
pub struct NameMapEntry {
    /// A name hash under which the name can be found.
    pub hash: Vec<u8>,
    /// The original manifest line.
    pub name: Vec<u8>,
}

impl View for NameMapEntry {
    type V = NameMapEntryModel;

    open spec fn view(&self) -> NameMapEntryModel {
        NameMapEntryModel { hash: self.hash@, name: self.name@ }
    }
}

/// The models of a name map, in insertion order.
pub open spec fn map_views(ms: Seq<NameMapEntry>) -> Seq<NameMapEntryModel> {
    Seq::new(ms.len(), |i: int| ms[i]@)
}

/// The map records one name contributes: its hash under the original
/// spelling, the uppercased spelling and the lowercased spelling, each
/// mapping back to the original name.
pub open spec fn spec_name_records(name: Seq<u8>) -> Seq<NameMapEntryModel> {
    seq![
        NameMapEntryModel { hash: name_hash_of(name), name },
        NameMapEntryModel { hash: name_hash_of(crate::hash::upper_ascii(name)), name },
        NameMapEntryModel { hash: name_hash_of(lower_ascii(name)), name },
    ]
}

/// The whole hash-to-name map of a manifest blob, in insertion order.
pub open spec fn spec_name_map(names: Seq<Seq<u8>>) -> Seq<NameMapEntryModel>
    decreases names.len(),
{
    if names.len() == 0 {
        seq![]
    } else {
        spec_name_records(names[0]) + spec_name_map(names.skip(1))
    }
}

/// The latest record under hash `h`, mirroring how repeated map inserts
/// overwrite earlier ones.
pub open spec fn spec_lookup(map: Seq<NameMapEntryModel>, h: Seq<u8>) -> Option<Seq<u8>>
    decreases map.len(),
{
    if map.len() == 0 {
        None
    } else if map.last().hash == h {
        Some(map.last().name)
    } else {
        spec_lookup(map.drop_last(), h)
    }
}

/// Looks the hash up in the map, latest record first.
pub fn lookup_name(map: &Vec<NameMapEntry>, h: &[u8]) -> (r: Option<Vec<u8>>)
    ensures
        match r {
            Some(n) => spec_lookup(map_views(map@), h@) == Some(n@),
            None => spec_lookup(map_views(map@), h@) is None,
        },
{
    let ghost mv = map_views(map@);
    let n = map.len();
    let mut i: usize = n;
    proof {
        assert(mv.take(n as int) =~= mv);
    }
    while i > 0
        invariant
            0 <= i <= n,
            n == map@.len(),
            mv == map_views(map@),
            spec_lookup(mv, h@) == spec_lookup(mv.take(i as int), h@),
        decreases i,
    {
        proof {
            assert(mv.take(i as int).last() == mv[i - 1]);
            assert(mv.take(i as int).drop_last() =~= mv.take(i - 1));
        }
        if crate::wire::bytes_eq(map[i - 1].hash.as_slice(), h) {
            assert(mv[i - 1].hash == h@);
            return Some(map[i - 1].name.clone());
        }
        assert(mv[i - 1].hash != h@);
        i = i - 1;
    }
    proof {
        assert(mv.take(0).len() == 0);
    }
    None
}

/// Splits a manifest blob into pieces between newline or NUL bytes.
fn split_names_exec(t: &[u8]) -> (r: Vec<Vec<u8>>)
    ensures
        r@.len() == split_names(t@).len(),
        forall|i: int| 0 <= i < r@.len() ==> (#[trigger] r@[i])@ == split_names(t@)[i],
{
    let len = t.len();
    let mut done: Vec<Vec<u8>> = Vec::new();
    let ghost mut gdone: Seq<Seq<u8>> = Seq::empty();
    let mut cur: Vec<u8> = Vec::new();
    let mut i: usize = 0;
    proof {
        assert(t@.take(0) =~= Seq::<u8>::empty());
        assert(split_names(t@.take(0)) =~= gdone + seq![cur@]);
    }
    while i < len
        invariant
            0 <= i <= len,
            len == t@.len(),
            gdone.len() == done@.len(),
            forall|j: int| 0 <= j < done@.len() ==> (#[trigger] done@[j])@ == gdone[j],
            split_names(t@.take(i as int)) == gdone + seq![cur@],
        decreases len - i,
    {
        let c = t[i];
        proof {
            let pre = t@.take(i + 1);
            assert(pre.drop_last() =~= t@.take(i as int));
            assert(pre.last() == t@[i as int]);
        }
        if c == 0x0a || c == 0x00 {
            proof {
                assert(split_names(t@.take(i + 1)) =~= (gdone + seq![cur@]) + seq![
                    Seq::<u8>::empty(),
                ]);
            }
            done.push(cur);
            proof {
                gdone = gdone + seq![cur@];
            }
            cur = Vec::new();
            proof {
                assert(split_names(t@.take(i + 1)) =~= gdone + seq![cur@]);
            }
        } else {
            proof {
                let old_list = gdone + seq![cur@];
                assert(old_list.len() - 1 == gdone.len());
                assert(old_list.last() == cur@);
                assert(old_list.update(old_list.len() - 1, cur@.push(c)) =~= gdone + seq![
                    cur@.push(c),
                ]);
            }
            cur.push(c);
        }
        i = i + 1;
    }
    proof {
        assert(t@.take(len as int) =~= t@);
    }
    done.push(cur);
    proof {
        assert(done@.len() == gdone.len() + 1);
        assert(forall|j: int|
            0 <= j < gdone.len() ==> (#[trigger] done@[j])@ == (gdone + seq![cur@])[j]);
        assert(done@[gdone.len() as int]@ == (gdone + seq![cur@])[gdone.len() as int]);
    }
    done
}

/// Extending the piece list by one piece appends its trimmed form when
/// that is nonempty.
proof fn lemma_trimmed_names_snoc(pieces: Seq<Seq<u8>>, i: int)
    requires
        0 <= i < pieces.len(),
    ensures
        trimmed_names(pieces.take(i + 1)) == trimmed_names(pieces.take(i)) + (
        if trim_ws(pieces[i]).len() == 0 {
            Seq::<Seq<u8>>::empty()
        } else {
            seq![trim_ws(pieces[i])]
        }),
    decreases i,
{
    if i == 0 {
        assert(pieces.take(1) =~= seq![pieces[0]]);
        assert(pieces.take(1).skip(1) =~= Seq::<Seq<u8>>::empty());
        assert(trimmed_names(pieces.take(0)).len() == 0);
        assert(trimmed_names(pieces.take(1).skip(1)).len() == 0);
        assert(pieces.take(1)[0] == pieces[0]);
        assert(trimmed_names(pieces.take(1)) =~= trimmed_names(pieces.take(0)) + (
        if trim_ws(pieces[0]).len() == 0 {
            Seq::<Seq<u8>>::empty()
        } else {
            seq![trim_ws(pieces[0])]
        }));
    } else {
        lemma_trimmed_names_snoc(pieces.skip(1), i - 1);
        assert(pieces.take(i + 1).skip(1) =~= pieces.skip(1).take(i));
        assert(pieces.take(i).skip(1) =~= pieces.skip(1).take(i - 1));
        assert(pieces.take(i + 1)[0] == pieces[0]);
        assert(pieces.take(i)[0] == pieces[0]);
        assert(pieces.skip(1)[i - 1] == pieces[i]);
        assert(trimmed_names(pieces.take(i + 1)) =~= trimmed_names(pieces.take(i)) + (
        if trim_ws(pieces[i]).len() == 0 {
            Seq::<Seq<u8>>::empty()
        } else {
            seq![trim_ws(pieces[i])]
        }));
    }
}

/// Trims a manifest piece: whitespace only, as the extractor does.
fn trim_piece(s: &[u8]) -> (r: Vec<u8>)
    ensures
        r@ == trim_ws(s@),
{
    let len = s.len();
    let mut a: usize = 0;
    while a < len && (s[a] == 0x09 || s[a] == 0x0a || s[a] == 0x0b || s[a] == 0x0c || s[a] == 0x0d
        || s[a] == 0x20)
        invariant
            0 <= a <= len,
            len == s@.len(),
            forall|i: int| 0 <= i < a ==> is_ws(#[trigger] s@[i]),
        decreases len - a,
    {
        a = a + 1;
    }
    let mut b: usize = len;
    while b > a && (s[b - 1] == 0x09 || s[b - 1] == 0x0a || s[b - 1] == 0x0b || s[b - 1] == 0x0c
        || s[b - 1] == 0x0d || s[b - 1] == 0x20)
        invariant
            a <= b <= len,
            len == s@.len(),
            forall|i: int| 0 <= i < a ==> is_ws(#[trigger] s@[i]),
            forall|i: int| b <= i < len ==> is_ws(#[trigger] s@[i]),
        decreases b,
    {
        b = b - 1;
    }
    proof {
        if a < b {
            assert(!is_ws(s@[a as int]));
            assert(!is_ws(s@[b - 1]));
        } else {
            assert(a == b);
        }
        crate::manifest::lemma_trim_subrange(s@, a as int, b as int);
    }
    vstd::slice::slice_to_vec(vstd::slice::slice_subrange(s, a, b))
}

/// Builds the hash-to-name map of a manifest blob: for every trimmed,
/// nonempty name, its hash under the original, uppercased and lowercased
/// spellings, each mapping to the original name. Later records shadow
/// earlier ones on lookup.
pub fn build_name_map(manifest: &[u8]) -> (r: Vec<NameMapEntry>)
    ensures
        map_views(r@) == spec_name_map(spec_manifest_names(manifest@)),
{
    let pieces = split_names_exec(manifest);
    let ghost ps = split_names(manifest@);
    let ghost names = trimmed_names(ps);
    let n = pieces.len();
    let mut out: Vec<NameMapEntry> = Vec::new();
    let ghost mut gnames: Seq<Seq<u8>> = Seq::empty();
    let mut i: usize = 0;
    proof {
        assert(ps.take(0) =~= Seq::<Seq<u8>>::empty());
        assert(trimmed_names(ps.take(0)) =~= gnames);
        assert(map_views(out@) =~= spec_name_map(gnames));
    }
    while i < n
        invariant
            0 <= i <= n,
            n == ps.len(),
            n == pieces@.len(),
            forall|j: int| 0 <= j < n ==> (#[trigger] pieces@[j])@ == ps[j],
            trimmed_names(ps.take(i as int)) == gnames,
            map_views(out@) == spec_name_map(gnames),
        decreases n - i,
    {
        let name = trim_piece(pieces[i].as_slice());
        proof {
            lemma_trimmed_names_snoc(ps, i as int);
        }
        if name.len() > 0 {
            let ghost pre = map_views(out@);
            let ghost gname = name@;
            let h0 = calculate_md5(name.as_slice());
            let upper = crate::hash::to_upper_ascii(name.as_slice());
            let h1 = calculate_md5(upper.as_slice());
            let lower = to_lower_ascii(name.as_slice());
            let h2 = calculate_md5(lower.as_slice());
            out.push(NameMapEntry { hash: h0, name: name.clone() });
            out.push(NameMapEntry { hash: h1, name: name.clone() });
            out.push(NameMapEntry { hash: h2, name });
            proof {
                assert(map_views(out@) =~= pre + spec_name_records(gname));
                lemma_name_map_snoc(gnames, gname);
                assert(gnames.push(gname) =~= gnames + seq![gname]);
                gnames = gnames + seq![gname];
                assert(trimmed_names(ps.take(i + 1)) =~= gnames);
            }
        } else {
            proof {
                assert(trimmed_names(ps.take(i + 1)) =~= gnames);
            }
        }
        i = i + 1;
    }
    proof {
        assert(ps.take(n as int) =~= ps);
    }
    out
}

/// Appending one name to the list appends its three records to the map.
pub proof fn lemma_name_map_snoc(names: Seq<Seq<u8>>, name: Seq<u8>)
    ensures
        spec_name_map(names.push(name)) == spec_name_map(names) + spec_name_records(name),
    decreases names.len(),
{
    if names.len() == 0 {
        assert(names.push(name) =~= seq![name]);
        assert(names.push(name).skip(1) =~= Seq::<Seq<u8>>::empty());
        assert(spec_name_map(names).len() == 0);
        assert(spec_name_map(names.push(name).skip(1)).len() == 0);
        assert(names.push(name)[0] == name);
        assert(spec_name_map(names.push(name)) =~= spec_name_map(names) + spec_name_records(
            name,
        ));
    } else {
        lemma_name_map_snoc(names.skip(1), name);
        assert(names.push(name).skip(1) =~= names.skip(1).push(name));
        assert(names.push(name)[0] == names[0]);
        assert(spec_name_map(names.push(name)) =~= spec_name_map(names) + spec_name_records(
            name,
        ));
    }
}

/// The two lowercase hex digit bytes for byte `b`.
pub open spec fn hex_byte_lower(b: u8) -> Seq<u8> {
    seq![hex_digit_lower(b as int / 16), hex_digit_lower(b as int % 16)]
}

/// The lowercase hex digit byte for `n` in `0..16`.
pub open spec fn hex_digit_lower(n: int) -> u8
    recommends
        0 <= n < 16,
{
    if n < 10 {
        (0x30 + n) as u8
    } else {
        (0x61 + (n - 10)) as u8
    }
}

/// The lowercase hex rendering of a hash, without separators.
pub open spec fn lower_hex_bytes(h: Seq<u8>) -> Seq<u8>
    decreases h.len(),
{
    if h.len() == 0 {
        seq![]
    } else {
        hex_byte_lower(h[0]) + lower_hex_bytes(h.skip(1))
    }
}

/// The path an entry extracts to when its hash is not in the manifest:
/// `_Unknowns/<hex>.bin` with the hash in lowercase hex.
pub open spec fn unknown_path(h: Seq<u8>) -> Seq<u8> {
    seq![0x5fu8, 0x55u8, 0x6eu8, 0x6bu8, 0x6eu8, 0x6fu8, 0x77u8, 0x6eu8, 0x73u8, 0x2fu8]
        + lower_hex_bytes(h) + seq![0x2eu8, 0x62u8, 0x69u8, 0x6eu8]
}

/// Extending the rendered prefix by one byte appends its two hex digits.
proof fn lemma_lower_hex_snoc(h: Seq<u8>, i: int)
    requires
        0 <= i < h.len(),
    ensures
        lower_hex_bytes(h.take(i + 1)) == lower_hex_bytes(h.take(i)) + hex_byte_lower(h[i]),
    decreases i,
{
    if i == 0 {
        assert(h.take(1) =~= seq![h[0]]);
        assert(h.take(1).skip(1) =~= Seq::<u8>::empty());
        assert(lower_hex_bytes(h.take(0)).len() == 0);
        assert(lower_hex_bytes(h.take(1).skip(1)).len() == 0);
        assert(h.take(1)[0] == h[0]);
        assert(lower_hex_bytes(h.take(1)) =~= lower_hex_bytes(h.take(0)) + hex_byte_lower(h[0]));
    } else {
        lemma_lower_hex_snoc(h.skip(1), i - 1);
        assert(h.take(i + 1).skip(1) =~= h.skip(1).take(i));
        assert(h.take(i).skip(1) =~= h.skip(1).take(i - 1));
        assert(h.take(i + 1)[0] == h[0]);
        assert(h.take(i)[0] == h[0]);
        assert(h.skip(1)[i - 1] == h[i]);
        assert(lower_hex_bytes(h.take(i + 1)) =~= lower_hex_bytes(h.take(i)) + hex_byte_lower(
            h[i],
        ));
    }
}

/// Renders the `_Unknowns/<hex>.bin` path for a hash.
fn unknown_path_exec(h: &[u8]) -> (r: Vec<u8>)
    ensures
        r@ == unknown_path(h@),
{
    let mut r: Vec<u8> = Vec::new();
    r.push(0x5f);
    r.push(0x55);
    r.push(0x6e);
    r.push(0x6b);
    r.push(0x6e);
    r.push(0x6f);
    r.push(0x77);
    r.push(0x6e);
    r.push(0x73);
    r.push(0x2f);
    let ghost prefix = r@;
    let n = h.len();
    let mut i: usize = 0;
    proof {
        assert(lower_hex_bytes(h@.take(0)).len() == 0);
        assert(r@ =~= prefix + lower_hex_bytes(h@.take(0)));
    }
    while i < n
        invariant
            0 <= i <= n,
            n == h@.len(),
            r@ == prefix + lower_hex_bytes(h@.take(i as int)),
        decreases n - i,
    {
        let b = h[i];
        let hi = b / 16;
        let lo = b % 16;
        if hi < 10 {
            r.push(0x30 + hi);
        } else {
            r.push(0x61 + (hi - 10));
        }
        if lo < 10 {
            r.push(0x30 + lo);
        } else {
            r.push(0x61 + (lo - 10));
        }
        proof {
            lemma_lower_hex_snoc(h@, i as int);
            assert(r@ =~= prefix + lower_hex_bytes(h@.take(i + 1)));
        }
        i = i + 1;
    }
    proof {
        assert(h@.take(n as int) =~= h@);
    }
    r.push(0x2e);
    r.push(0x62);
    r.push(0x69);
    r.push(0x6e);
    proof {
        assert(r@ =~= unknown_path(h@));
    }
    r
}

/// The mathematical content of one extracted file.
pub ghost struct ExtractedFileModel {
    /// The output path: the manifest name, or the unknown-hash path.
    pub path: Seq<u8>,
    /// The decoded bytes.
    pub data: Seq<u8>,
    /// The size the TOC entry announced, for mismatch warnings.
    pub expected_size: u64,
}

/// One extracted file: its output path and decoded bytes.
pub struct ExtractedFile {
    /// The output path: the manifest name, or the unknown-hash path.
    pub path: Vec<u8>,
    /// The decoded bytes.
    pub data: Vec<u8>,
    /// The size the TOC entry announced, for mismatch warnings.
    pub expected_size: u64,
}

impl View for ExtractedFile {
    type V = ExtractedFileModel;

    open spec fn view(&self) -> ExtractedFileModel {
        ExtractedFileModel {
            path: self.path@,
            data: self.data@,
            expected_size: self.expected_size,
        }
    }
}

/// The models of the extracted files, in TOC order.
pub open spec fn extracted_views(fs: Seq<ExtractedFile>) -> Seq<ExtractedFileModel> {
    Seq::new(fs.len(), |i: int| fs[i]@)
}

/// What extracting the entries from position `i` on yields: the manifest
/// entry and entries without data are skipped; every other entry's blocks
/// are decoded and its path resolved through the map, falling back to the
/// unknown-hash path; the first decode failure aborts.
pub open spec fn spec_extract_files(
    a: Seq<u8>,
    zs: Seq<u16>,
    entries: Seq<EntryModel>,
    bs: u32,
    map: Seq<NameMapEntryModel>,
    i: int,
) -> Result<Seq<ExtractedFileModel>, PsarcError>
    decreases entries.len() - i,
{
    if i < 0 || i >= entries.len() {
        Ok(seq![])
    } else {
        let e = entries[i];
        if e.name_hash == zero_hash() || e.offset == 0 {
            spec_extract_files(a, zs, entries, bs, map, i + 1)
        } else {
            match spec_decode_entry(a, zs, e.zsize_index, e.offset, e.uncompressed_size, bs) {
                Err(err) => Err(err),
                Ok(d) => {
                    let path = match spec_lookup(map, e.name_hash) {
                        Some(n) => n,
                        None => unknown_path(e.name_hash),
                    };
                    match spec_extract_files(a, zs, entries, bs, map, i + 1) {
                        Err(err) => Err(err),
                        Ok(fs) => Ok(
                            seq![
                                ExtractedFileModel {
                                    path,
                                    data: d,
                                    expected_size: e.uncompressed_size,
                                },
                            ] + fs,
                        ),
                    }
                },
            }
        }
    }
}

/// The manifest bytes of a parsed archive: entry 0's decoded data when its
/// hash is all zeros, its offset is nonzero and its blocks decode.
pub open spec fn spec_extract_manifest(a: Seq<u8>, m: TocModel) -> Option<Seq<u8>> {
    if m.entries.len() > 0 && m.entries[0].name_hash == zero_hash() && m.entries[0].offset != 0 {
        match spec_decode_entry(
            a,
            m.zsizes,
            m.entries[0].zsize_index,
            m.entries[0].offset,
            m.entries[0].uncompressed_size,
            m.block_size,
        ) {
            Ok(d) => Some(d),
            Err(_) => None,
        }
    } else {
        None
    }
}

/// What extracting the whole archive yields: the parsed TOC, the manifest
/// from entry 0 and the name map built from it, then every entry decoded.
pub open spec fn spec_extract(a: Seq<u8>) -> Result<
    (Option<Seq<u8>>, Seq<ExtractedFileModel>),
    PsarcError,
> {
    match spec_parse_toc(a, true) {
        Err(e) => Err(e),
        Ok(m) => {
            let manifest = spec_extract_manifest(a, m);
            let map = match manifest {
                Some(d) => spec_name_map(spec_manifest_names(d)),
                None => seq![],
            };
            match spec_extract_files(a, m.zsizes, m.entries, m.block_size, map, 0) {
                Err(e) => Err(e),
                Ok(fs) => Ok((manifest, fs)),
            }
        },
    }
}

/// What an extract run yields: the manifest blob from entry 0, when it
/// could be decoded, and every entry's path and decoded bytes in TOC
/// order.
pub struct ExtractOutcome {
    /// The manifest bytes of entry 0, to be persisted alongside the files.
    pub manifest: Option<Vec<u8>>,
    /// The extracted files, in TOC order.
    pub files: Vec<ExtractedFile>,
}

/// Prepends `pre` to a successful extraction's files.
pub open spec fn result_append(
    pre: Seq<ExtractedFileModel>,
    r: Result<Seq<ExtractedFileModel>, PsarcError>,
) -> Result<Seq<ExtractedFileModel>, PsarcError> {
    match r {
        Ok(fs) => Ok(pre + fs),
        Err(e) => Err(e),
    }
}

/// Extracts every file of the archive `a`: validates the header, decodes
/// the manifest entry and builds the hash-to-name map from it, then
/// decodes every entry with a nonzero hash and offset, resolving its path
/// through the map or falling back to `_Unknowns/<hex>.bin`. Fails on a
/// bad magic, a compression tag other than `"zlib"`, a table or block
/// outside the archive, or a rejected zlib stream.
pub fn extract_archive(a: &[u8]) -> (r: Result<ExtractOutcome, PsarcError>)
    ensures
        match r {
            Ok(out) => spec_extract(a@) matches Ok(res) && res.0 == (match out.manifest {
                Some(mb) => Some(mb@),
                None => None,
            }) && res.1 == extracted_views(out.files@),
            Err(e) => spec_extract(a@) == Err::<
                (Option<Seq<u8>>, Seq<ExtractedFileModel>),
                PsarcError,
            >(e),
        },
{
    let parsed = parse_toc(a, true);
    let (entries, zsizes, block_size) = match parsed {
        Ok(t) => t,
        Err(e) => {
            return Err(e);
        },
    };
    let ghost m = spec_parse_toc(a@, true)->Ok_0;
    let zero: [u8; 16] = [0, 0, 0, 0, 0, 0, 0, 0, 0, 0, 0, 0, 0, 0, 0, 0];
    proof {
        assert(zero@ =~= zero_hash());
    }
    let mut manifest: Option<Vec<u8>> = None;
    let mut map: Vec<NameMapEntry> = Vec::new();
    if entries.len() > 0 && entries[0].offset != 0 && crate::wire::bytes_eq(
        entries[0].name_hash.as_slice(),
        zero.as_slice(),
    ) {
        match read_file_data(a, &entries[0], &zsizes, block_size) {
            Ok(d) => {
                map = build_name_map(d.as_slice());
                manifest = Some(d);
            },
            Err(_) => {},
        }
    }
    proof {
        assert((match manifest {
            Some(mb) => Some(mb@),
            None => None,
        }) == spec_extract_manifest(a@, m));
        assert(map_views(map@) == (match spec_extract_manifest(a@, m) {
            Some(d) => spec_name_map(spec_manifest_names(d)),
            None => Seq::<NameMapEntryModel>::empty(),
        }));
    }
    let ghost gmap = map_views(map@);
    let n = entries.len();
    let mut files: Vec<ExtractedFile> = Vec::new();
    let ghost mut gfiles: Seq<ExtractedFileModel> = Seq::empty();
    let mut i: usize = 0;
    proof {
        assert(gfiles + spec_extract_files(a@, m.zsizes, m.entries, m.block_size, gmap, 0)->Ok_0
            =~= spec_extract_files(a@, m.zsizes, m.entries, m.block_size, gmap, 0)->Ok_0);
    }
    while i < n
        invariant
            0 <= i <= n,
            n == entries@.len(),
            n == m.entries.len(),
            zero@ == zero_hash(),
            zsizes@ == m.zsizes,
            block_size == m.block_size,
            forall|j: int| 0 <= j < n ==> (#[trigger] entries@[j])@ == m.entries[j],
            spec_parse_toc(a@, true) == Ok::<TocModel, PsarcError>(m),
            (match manifest {
                Some(mb) => Some(mb@),
                None => None,
            }) == spec_extract_manifest(a@, m),
            gmap == (match spec_extract_manifest(a@, m) {
                Some(d) => spec_name_map(spec_manifest_names(d)),
                None => Seq::<NameMapEntryModel>::empty(),
            }),
            gmap == map_views(map@),
            gfiles.len() == files@.len(),
            forall|j: int| 0 <= j < files@.len() ==> (#[trigger] files@[j])@ == gfiles[j],
            spec_extract_files(a@, m.zsizes, m.entries, m.block_size, gmap, 0) == result_append(
                gfiles,
                spec_extract_files(a@, m.zsizes, m.entries, m.block_size, gmap, i as int),
            ),
        decreases n - i,
    {
        let e = &entries[i];
        let skip = e.offset == 0 || crate::wire::bytes_eq(e.name_hash.as_slice(), zero.as_slice());
        if !skip {
            match read_file_data(a, e, &zsizes, block_size) {
                Err(err) => {
                    return Err(err);
                },
                Ok(d) => {
                    let path = match lookup_name(&map, e.name_hash.as_slice()) {
                        Some(nm) => nm,
                        None => unknown_path_exec(e.name_hash.as_slice()),
                    };
                    let f = ExtractedFile {
                        path,
                        data: d,
                        expected_size: e.uncompressed_size,
                    };
                    proof {
                        let rest = spec_extract_files(
                            a@,
                            m.zsizes,
                            m.entries,
                            m.block_size,
                            gmap,
                            i + 1,
                        );
                        if rest is Ok {
                            assert(gfiles + (seq![f@] + rest->Ok_0) =~= (gfiles + seq![f@])
                                + rest->Ok_0);
                        }
                        gfiles = gfiles + seq![f@];
                    }
                    files.push(f);
                },
            }
        }
        i = i + 1;
    }
    proof {
        assert(spec_extract_files(a@, m.zsizes, m.entries, m.block_size, gmap, n as int) == Ok::<
            Seq<ExtractedFileModel>,
            PsarcError,
        >(seq![]));
        assert(gfiles + Seq::<ExtractedFileModel>::empty() =~= gfiles);
        assert(extracted_views(files@) =~= gfiles);
    }
    Ok(ExtractOutcome { manifest, files })
}


} // verus!
