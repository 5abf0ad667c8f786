//! Codec for PakFile archives: a versioned binary container made of a payload
//! region, a serialized index (flat V1 or hash/directory V2), and a fixed-size
//! trailer that carries the version, the index location and its SHA1.

pub mod archive;
pub mod crypto;
pub mod pakentry;
pub mod pakbuilder;
pub mod pakfile;
pub mod pakindex;
pub mod pakindexv1;
pub mod pakindexv2;
pub mod pakinfo;

use vstd::prelude::*;

verus! {

/// Labels of the integrity-checked regions of an index.
#[derive(Debug, Copy, Clone, PartialEq, Eq, Structural)]
pub enum PakRegion {
    PakIndex,
    PathHashIndex,
    FullDirectoryIndex,
}

/// The one error taxonomy of the codec; every failure maps to a single
/// canonical category.
#[derive(Debug, Copy, Clone, PartialEq, Eq, Structural)]
pub enum PakError {
    /// Recoverable during the trailer probe; otherwise fatal: magic or version
    /// mismatch, bad key size, import mismatch, backward seek, name outside a
    /// directory, u32 overflow.
    InvalidInput,
    /// Frozen index, negative offsets, out-of-bounds entry location.
    InvalidData,
    /// Chained length/SHA1 mismatch at the named boundary.
    Corrupt(PakRegion),
    /// Wrong-direction archive operation.
    PermissionDenied,
    /// Base64, AES, legacy compression flags, invalid UTF-8, FNV collision.
    Other,
    /// The byte source ran out.
    Eof,
}

/// Format generations, in emission order. Raw numbers collide at 8 between the
/// two FName-based variants; they are told apart by the byte width of the
/// trailer's compression-methods table.
#[derive(Debug, Copy, Clone, PartialEq, Eq, Structural)]
pub enum PakVersion {
    Initial,
    NoTimestamps,
    CompressionEncryption,
    IndexEncryption,
    RelativeChunkOffsets,
    DeleteRecords,
    EncryptionKeyGuid,
    FNameBasedCompressionMethod422,
    FNameBasedCompressionMethod,
    FrozenIndex,
    PathHashIndex,
    Fnv64BugFix,
}

impl PakVersion {
    /// Position of the version in the emission order; the semantic order that
    /// all version gates compare by.
    pub open spec fn ord(self) -> int {
        match self {
            PakVersion::Initial => 0,
            PakVersion::NoTimestamps => 1,
            PakVersion::CompressionEncryption => 2,
            PakVersion::IndexEncryption => 3,
            PakVersion::RelativeChunkOffsets => 4,
            PakVersion::DeleteRecords => 5,
            PakVersion::EncryptionKeyGuid => 6,
            PakVersion::FNameBasedCompressionMethod422 => 7,
            PakVersion::FNameBasedCompressionMethod => 8,
            PakVersion::FrozenIndex => 9,
            PakVersion::PathHashIndex => 10,
            PakVersion::Fnv64BugFix => 11,
        }
    }

    /// Raw number stored in the trailer; both FName-based variants share 8.
    pub fn raw(self) -> (r: i32)
        ensures
            r == self.spec_raw(),
    {
        match self {
            PakVersion::Initial => 1,
            PakVersion::NoTimestamps => 2,
            PakVersion::CompressionEncryption => 3,
            PakVersion::IndexEncryption => 4,
            PakVersion::RelativeChunkOffsets => 5,
            PakVersion::DeleteRecords => 6,
            PakVersion::EncryptionKeyGuid => 7,
            PakVersion::FNameBasedCompressionMethod422 => 8,
            PakVersion::FNameBasedCompressionMethod => 8,
            PakVersion::FrozenIndex => 9,
            PakVersion::PathHashIndex => 10,
            PakVersion::Fnv64BugFix => 11,
        }
    }

    pub open spec fn spec_raw(self) -> i32 {
        match self {
            PakVersion::Initial => 1,
            PakVersion::NoTimestamps => 2,
            PakVersion::CompressionEncryption => 3,
            PakVersion::IndexEncryption => 4,
            PakVersion::RelativeChunkOffsets => 5,
            PakVersion::DeleteRecords => 6,
            PakVersion::EncryptionKeyGuid => 7,
            PakVersion::FNameBasedCompressionMethod422 => 8,
            PakVersion::FNameBasedCompressionMethod => 8,
            PakVersion::FrozenIndex => 9,
            PakVersion::PathHashIndex => 10,
            PakVersion::Fnv64BugFix => 11,
        }
    }

    /// All versions, oldest first.
    pub fn list() -> (r: Vec<PakVersion>)
        ensures
            r@.len() == 12,
            forall|i: int| 0 <= i < 12 ==> r@[i].ord() == i,
    {
        let mut r: Vec<PakVersion> = Vec::new();
        r.push(PakVersion::Initial);
        r.push(PakVersion::NoTimestamps);
        r.push(PakVersion::CompressionEncryption);
        r.push(PakVersion::IndexEncryption);
        r.push(PakVersion::RelativeChunkOffsets);
        r.push(PakVersion::DeleteRecords);
        r.push(PakVersion::EncryptionKeyGuid);
        r.push(PakVersion::FNameBasedCompressionMethod422);
        r.push(PakVersion::FNameBasedCompressionMethod);
        r.push(PakVersion::FrozenIndex);
        r.push(PakVersion::PathHashIndex);
        r.push(PakVersion::Fnv64BugFix);
        r
    }

    /// Exec mirror of `ord`.
    pub fn ordinal(self) -> (r: u32)
        ensures
            r == self.ord(),
    {
        match self {
            PakVersion::Initial => 0,
            PakVersion::NoTimestamps => 1,
            PakVersion::CompressionEncryption => 2,
            PakVersion::IndexEncryption => 3,
            PakVersion::RelativeChunkOffsets => 4,
            PakVersion::DeleteRecords => 5,
            PakVersion::EncryptionKeyGuid => 6,
            PakVersion::FNameBasedCompressionMethod422 => 7,
            PakVersion::FNameBasedCompressionMethod => 8,
            PakVersion::FrozenIndex => 9,
            PakVersion::PathHashIndex => 10,
            PakVersion::Fnv64BugFix => 11,
        }
    }

    /// Semantic comparison: `self` is at least as new as `other`.
    pub open spec fn spec_at_least(self, other: PakVersion) -> bool {
        self.ord() >= other.ord()
    }

    /// Semantic comparison: `self` is strictly older than `other`.
    pub open spec fn spec_before(self, other: PakVersion) -> bool {
        self.ord() < other.ord()
    }

    /// The emission order separates every pair of versions.
    pub proof fn lemma_ord_injective(a: PakVersion, b: PakVersion)
        requires
            a.ord() == b.ord(),
        ensures
            a == b,
    {
    }

    /// Exec mirror of `spec_at_least`.
    pub fn at_least(self, other: PakVersion) -> (r: bool)
        ensures
            r == self.spec_at_least(other),
    {
        self.ordinal() >= other.ordinal()
    }

    /// Exec mirror of `spec_before`.
    pub fn before(self, other: PakVersion) -> (r: bool)
        ensures
            r == self.spec_before(other),
    {
        self.ordinal() < other.ordinal()
    }
}

/// Magic number stored in every trailer.
pub const PAK_FILE_MAGIC: u32 = 0x5A6F12E1;

/// Length of one compression-method name slot in the trailer.
pub const COMPRESSION_METHOD_NAME_LEN: usize = 32;

/// Number of stored method-name slots since 4.23; the 4.22 workaround stores one fewer.
pub const MAX_NUM_COMPRESSION_METHODS: usize = 5;

} // verus!
