//! A verified codec for PSARC v1.4 archives: the on-disk binary format, the
//! pack pipeline (directory contents to archive bytes), the extract pipeline
//! (archive bytes to file contents), and the incremental repack engine that
//! reuses already-compressed blocks from a prior archive.

use vstd::prelude::*;

pub mod blocks;
pub mod cache;
pub mod extract;
pub mod hash;
pub mod manifest;
pub mod pack;
pub mod roundtrip;
pub mod shell;
pub mod toc;
pub mod tree;
pub mod wire;
pub mod zlib;

verus! {

/// Every uncompressed file is cut into blocks of this many bytes.
pub const BLOCK_SIZE: usize = 65536;

/// Compression presets, mapped to zlib levels 0, 1, 6 and 9.
#[derive(Debug, Clone, Copy, PartialEq, Eq, Structural)]
pub enum CompressionLevel {
    Stored,
    Fast,
    Normal,
    Best,
}

impl CompressionLevel {
    /// The zlib level this preset selects.
    pub open spec fn spec_level(self) -> u32 {
        match self {
            CompressionLevel::Stored => 0,
            CompressionLevel::Fast => 1,
            CompressionLevel::Normal => 6,
            CompressionLevel::Best => 9,
        }
    }

    /// The zlib level this preset selects: 0 (stored), 1 (fast), 6 (normal)
    /// or 9 (best).
    pub fn to_level(self) -> (r: u32)
        ensures
            r == self.spec_level(),
            r <= 9,
    {
        match self {
            CompressionLevel::Stored => 0,
            CompressionLevel::Fast => 1,
            CompressionLevel::Normal => 6,
            CompressionLevel::Best => 9,
        }
    }
}

impl Default for CompressionLevel {
    /// The preset used when none is chosen.
    fn default() -> (r: Self)
        ensures
            r == CompressionLevel::Best,
    {
        CompressionLevel::Best
    }
}

/// How a pack run treats files that have not changed.
#[derive(Debug, Clone, Copy, PartialEq, Eq, Structural)]
pub enum PackingMode {
    /// Repack everything from scratch.
    Full,
    /// Recompress only modified files; reuse cached blocks for the rest.
    Incremental,
}

impl Default for PackingMode {
    /// The mode used when none is chosen.
    fn default() -> (r: Self)
        ensures
            r == PackingMode::Full,
    {
        PackingMode::Full
    }
}

/// The mathematical content of one file handed to the packer.
pub ghost struct FileInputModel {
    /// Archive-internal path: forward slashes, no leading slash.
    pub path: Seq<u8>,
    /// The file's uncompressed contents.
    pub data: Seq<u8>,
}

/// One file to pack: its archive-internal path (forward slashes, no
/// leading slash) and its contents.
pub struct FileInput {
    /// Archive-internal path: forward slashes, no leading slash.
    pub path: Vec<u8>,
    /// The file's uncompressed contents.
    pub data: Vec<u8>,
}

impl View for FileInput {
    type V = FileInputModel;

    open spec fn view(&self) -> FileInputModel {
        FileInputModel { path: self.path@, data: self.data@ }
    }
}

/// The models of a list of pack inputs, in order.
pub open spec fn file_views(fs: Seq<FileInput>) -> Seq<FileInputModel> {
    Seq::new(fs.len(), |i: int| fs[i]@)
}

/// Everything that can go wrong while reading or writing an archive.
#[derive(Debug, PartialEq, Eq)]
pub enum PsarcError {
    /// The archive does not start with `"PSAR"`.
    BadMagic,
    /// The compression tag is not `"zlib"`.
    UnsupportedCompression,
    /// An entry's offset points outside the archive.
    CorruptOffset,
    /// An entry's block sizes run past the end of the block-size table.
    CorruptZSizeIndex,
    /// A block's bytes would run past the end of the archive.
    CorruptBlockBounds,
    /// The zlib decoder rejected a block.
    InflateFailed,
    /// The on-disk manifest names files that were not discovered; holds the
    /// missing internal paths.
    ManifestReferenceMissing(Vec<Vec<u8>>),
    /// The packed output would not fit the format's 40-bit offsets and
    /// sizes or its 32-bit table fields.
    ArchiveTooLarge,
}

} // verus!
