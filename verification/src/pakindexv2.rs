//! The V2 hash/directory index: FNV64 path hashing, the tagged entry
//! location, the compact bit-packed entry encoding, and the two-level index
//! with its path-hash map and directory trees.

use vstd::prelude::*;
use vstd::string::StringSliceAdditionalSpecFns;
use vstd::utf8::encode_utf8;

use crate::archive::{
    enc_b32, enc_i32, enc_i64, enc_str, enc_u32, enc_u64, dec_b32, dec_i32, dec_i64, dec_str,
    dec_u32, dec_u64, lemma_dec_u32, lemma_dec_u64, str_bytes, str_fits, ArchiveReader,
    ArchiveWriter,
};
use crate::pakentry::{
    dec_entry, enc_entry, vec_to_hash20, entry_encodable, entry_full_len, lemma_enc_entry_len,
    PakCompressedBlock, PakEntry, PakEntryV, FLAG_ENCRYPTED,
};
use crate::{PakError, PakVersion};

verus! {

broadcast use vstd::string::group_string_axioms;

/// Payload alignment of encrypted blocks.
pub const AES_BLOCK_SIZE: u64 = 16;

// ---------------------------------------------------------------------------
// FNV64 path hashing
// ---------------------------------------------------------------------------
/// One FNV-1a step: xor the byte in, then multiply by the prime, wrapping.
pub open spec fn fnv64_step(h: u64, byte: u8, prime: u64) -> u64 {
    vstd::wrapping::u64_specs::wrapping_mul(h ^ (byte as u64), prime)
}

pub open spec fn fnv64_fold(bytes: Seq<u8>, h: u64, prime: u64) -> u64
    decreases bytes.len(),
{
    if bytes.len() == 0 {
        h
    } else {
        fnv64_fold(bytes.drop_first(), fnv64_step(h, bytes[0], prime), prime)
    }
}

/// Canonical FNV-1a over 64 bits, seeded by wrapping the seed into the offset
/// basis `0xcbf29ce484222325`, with prime `0x100000001b3`.
pub open spec fn spec_fnv64(bytes: Seq<u8>, seed: u64) -> u64 {
    fnv64_fold(
        bytes,
        vstd::wrapping::u64_specs::wrapping_add(0xcbf29ce484222325, seed),
        0x100000001b3,
    )
}

/// The historical variant with the offset basis and prime swapped.
pub open spec fn spec_legacy_fnv64(bytes: Seq<u8>, seed: u64) -> u64 {
    fnv64_fold(
        bytes,
        vstd::wrapping::u64_specs::wrapping_add(0x100000001b3, seed),
        0xcbf29ce484222325,
    )
}

/// Canonical seeded FNV-1a of the UTF-8 bytes of `s`.
pub fn fnv64(s: &str, seed: u64) -> (r: u64)
    ensures
        r == spec_fnv64(s.spec_bytes(), seed),
{
    let bytes = s.as_bytes();
    let prime: u64 = 0x100000001b3;
    let mut h: u64 = 0xcbf29ce484222325u64.wrapping_add(seed);
    let mut i: usize = 0;
    proof {
        assert(bytes@.skip(0) =~= bytes@);
    }
    while i < bytes.len()
        invariant
            i <= bytes@.len(),
            spec_fnv64(bytes@, seed) == fnv64_fold(bytes@.skip(i as int), h, prime),
        decreases bytes@.len() - i,
    {
        let b = *vstd::slice::slice_index_get(bytes, i);
        h = (h ^ (b as u64)).wrapping_mul(prime);
        proof {
            assert(bytes@.skip(i as int).drop_first() =~= bytes@.skip(i as int + 1));
        }
        i = i + 1;
    }
    proof {
        assert(bytes@.skip(i as int) =~= Seq::<u8>::empty());
    }
    h
}

/// The legacy buggy-constant hash of the UTF-8 bytes of `s`.
pub fn legacy_fnv64(s: &str, seed: u64) -> (r: u64)
    ensures
        r == spec_legacy_fnv64(s.spec_bytes(), seed),
{
    let bytes = s.as_bytes();
    let prime: u64 = 0xcbf29ce484222325;
    let mut h: u64 = 0x100000001b3u64.wrapping_add(seed);
    let mut i: usize = 0;
    proof {
        assert(bytes@.skip(0) =~= bytes@);
    }
    while i < bytes.len()
        invariant
            i <= bytes@.len(),
            spec_legacy_fnv64(bytes@, seed) == fnv64_fold(bytes@.skip(i as int), h, prime),
        decreases bytes@.len() - i,
    {
        let b = *vstd::slice::slice_index_get(bytes, i);
        h = (h ^ (b as u64)).wrapping_mul(prime);
        proof {
            assert(bytes@.skip(i as int).drop_first() =~= bytes@.skip(i as int + 1));
        }
        i = i + 1;
    }
    proof {
        assert(bytes@.skip(i as int) =~= Seq::<u8>::empty());
    }
    h
}

// ---------------------------------------------------------------------------
// Alignment
// ---------------------------------------------------------------------------
/// The least multiple of `a` that is at least `v`.
pub open spec fn spec_align(v: int, a: int) -> int
    recommends
        a >= 1,
{
    ((v + a - 1) / a) * a
}

/// Rounds `v` up to a multiple of `alignment`.
pub fn align(v: u64, alignment: u64) -> (r: u64)
    requires
        1 <= alignment <= 16,
        v + alignment <= u64::MAX,
    ensures
        r == spec_align(v as int, alignment as int),
        v <= r < v + alignment,
        r % alignment == 0,
    {
        let t = v + alignment - 1;
        let q = t / alignment;
        proof {
            let ti: int = t as int;
            let ai: int = alignment as int;
            vstd::arithmetic::div_mod::lemma_fundamental_div_mod(ti, ai);
            vstd::arithmetic::div_mod::lemma_mod_bound(ti, ai);
            assert(q as int == ti / ai);
            assert(q as int * ai == ti - ti % ai) by (nonlinear_arith)
                requires
                    ti == ai * (ti / ai) + ti % ai,
                    q as int == ti / ai,
            ;
        }
        let r = q * alignment;
        proof {
            vstd::arithmetic::div_mod::lemma_mod_multiples_basic(q as int, alignment as int);
        }
        r
    }

// ---------------------------------------------------------------------------
// Entry locations
// ---------------------------------------------------------------------------
/// Where an entry lives: the compact blob, the full-entry list, or nowhere.
#[derive(Debug, Clone, Copy, PartialEq, Eq, Structural)]
pub enum PakEntryLocation {
    Deleted,
    Offset(usize),
    Index(usize),
}

/// The on-wire i32 form of a location.
#[derive(Debug, Default, Clone, Copy, PartialEq, Eq, Structural)]
pub struct RawPakEntryLocation {
    index: i32,
}

impl RawPakEntryLocation {
    pub closed spec fn spec_raw(self) -> i32 {
        self.index
    }

    /// The tagged meaning of the raw value: non-negative values below
    /// `i32::MAX` are blob offsets, negative values above `i32::MIN` are
    /// list indices, and the two extremes mean deleted.
    pub open spec fn spec_get(self) -> PakEntryLocation {
        Self::spec_get_raw(self.spec_raw())
    }

    pub open spec fn spec_get_raw(index: i32) -> PakEntryLocation {
        if index == i32::MIN || index == i32::MAX {
            PakEntryLocation::Deleted
        } else if index < 0 {
            PakEntryLocation::Index((-(index + 1)) as usize)
        } else {
            PakEntryLocation::Offset(index as usize)
        }
    }

    pub fn from_raw(index: i32) -> (r: Self)
        ensures
            r.spec_raw() == index,
    {
        RawPakEntryLocation { index }
    }

    pub fn raw(self) -> (r: i32)
        ensures
            r == self.spec_raw(),
    {
        self.index
    }

    pub fn from_offset(offset: usize) -> (r: Self)
        requires
            offset < i32::MAX,
        ensures
            r.spec_get() == PakEntryLocation::Offset(offset),
            r.spec_raw() == offset as i32,
    {
        RawPakEntryLocation { index: offset as i32 }
    }

    pub fn from_index(index: usize) -> (r: Self)
        requires
            index < i32::MAX,
        ensures
            r.spec_get() == PakEntryLocation::Index(index),
            r.spec_raw() == -(index as i32) - 1,
    {
        RawPakEntryLocation { index: -(index as i32) - 1 }
    }

    pub fn get(self) -> (r: PakEntryLocation)
        ensures
            r == self.spec_get(),
    {
        if self.index == i32::MIN || self.index == i32::MAX {
            PakEntryLocation::Deleted
        } else if self.index < 0 {
            PakEntryLocation::Index((-(self.index + 1)) as usize)
        } else {
            PakEntryLocation::Offset(self.index as usize)
        }
    }
}

// ---------------------------------------------------------------------------
// Compact bit-packed entry encoding
// ---------------------------------------------------------------------------
pub open spec fn spec_u32_from_le(s: Seq<u8>) -> u32 {
    vstd::bytes::spec_u32_from_le_bytes(s)
}

/// The 32-bit compact header, fields summed into disjoint bit ranges.
pub open spec fn compact_header(e: PakEntryV) -> u32 {
    ((if e.offset <= u32::MAX {
        0x80000000int
    } else {
        0int
    }) + (if e.uncompressed_size <= u32::MAX {
        0x40000000int
    } else {
        0int
    }) + (if e.size <= u32::MAX {
        0x20000000int
    } else {
        0int
    }) + (e.compression_method_index as int) * 0x800000 + (if e.spec_is_encrypted() {
        0x400000int
    } else {
        0int
    }) + (e.compression_blocks.len() as int) * 0x40 + ((e.compression_block_size >> 11) as int)) as u32
}

/// Whether the compact form stores the per-block length list.
pub open spec fn compact_has_lens(e: PakEntryV) -> bool {
    e.compression_method_index != 0 && (e.compression_blocks.len() > 1 || (
    e.compression_blocks.len() == 1 && e.spec_is_encrypted()))
}

pub open spec fn blocks_lens(bs: Seq<PakCompressedBlock>) -> Seq<u8>
    decreases bs.len(),
{
    if bs.len() == 0 {
        Seq::empty()
    } else {
        enc_u32((bs[0].compressed_end - bs[0].compressed_start) as u32) + blocks_lens(
            bs.drop_first(),
        )
    }
}

pub open spec fn enc_compact(e: PakEntryV) -> Seq<u8> {
    enc_u32(compact_header(e)) + (if e.offset <= u32::MAX {
        enc_u32(e.offset as u32)
    } else {
        enc_u64(e.offset)
    }) + (if e.uncompressed_size <= u32::MAX {
        enc_u32(e.uncompressed_size as u32)
    } else {
        enc_u64(e.uncompressed_size)
    }) + (if e.compression_method_index != 0 {
        if e.size <= u32::MAX {
            enc_u32(e.size as u32)
        } else {
            enc_u64(e.size)
        }
    } else {
        Seq::<u8>::empty()
    }) + (if compact_has_lens(e) {
        blocks_lens(e.compression_blocks)
    } else {
        Seq::<u8>::empty()
    })
}

/// Parses one u32-or-u64 field, per a width bit of the header.
pub open spec fn dec_var(s: Seq<u8>, is32: bool) -> Option<(u64, int)> {
    if is32 {
        match dec_u32(s) {
            Some((x, n)) => Some((x as u64, n)),
            None => None,
        }
    } else {
        dec_u64(s)
    }
}

pub open spec fn dec_lens(s: Seq<u8>, n: nat) -> Option<(Seq<u32>, int)> {
    if s.len() >= 4 * n {
        Some(
            (
                Seq::new(n, |i: int| spec_u32_from_le(s.subrange(4 * i, 4 * i + 4))),
                4 * n as int,
            ),
        )
    } else {
        None
    }
}

/// Reconstructs the block list from stored lengths: each block starts where
/// the previous block's aligned length ends.
pub open spec fn blocks_walk(lens: Seq<u32>, start: int, alignment: int) -> Seq<PakCompressedBlock>
    decreases lens.len(),
{
    if lens.len() == 0 {
        Seq::empty()
    } else {
        seq![
            PakCompressedBlock {
                compressed_start: start as i64,
                compressed_end: (start + lens[0]) as i64,
            },
        ] + blocks_walk(lens.drop_first(), start + spec_align(lens[0] as int, alignment), alignment)
    }
}

pub open spec fn dec_compact(s: Seq<u8>, v: PakVersion) -> Option<(PakEntryV, int)> {
    match dec_u32(s) {
        None => None,
        Some((value, _)) => {
            let method = (value >> 23) & 0x3f;
            match dec_var(s.skip(4), value & 0x80000000 != 0) {
                None => None,
                Some((offset, n1)) => match dec_var(s.skip(4 + n1), value & 0x40000000 != 0) {
                    None => None,
                    Some((unc, n2)) => {
                        let p = 4 + n1 + n2;
                        match (if method != 0 {
                            dec_var(s.skip(p), value & 0x20000000 != 0)
                        } else {
                            Some((unc, 0int))
                        }) {
                            None => None,
                            Some((size, n3)) => dec_compact_blocks(
                                s,
                                v,
                                value,
                                method,
                                offset,
                                unc,
                                size,
                                p + n3,
                            ),
                        }
                    },
                },
            }
        },
    }
}

pub open spec fn dec_compact_blocks(
    s: Seq<u8>,
    v: PakVersion,
    value: u32,
    method: u32,
    offset: u64,
    unc: u64,
    size: u64,
    q: int,
) -> Option<(PakEntryV, int)> {
    let encrypted = value & 0x400000 != 0;
    let flags: u8 = if encrypted {
        FLAG_ENCRYPTED
    } else {
        0
    };
    let n = (value >> 6) & 0xffff;
    let cbs: u32 = if n > 0 {
        if (unc as int) < (((value & 0x3f) as int) * 0x800) {
            unc as u32
        } else {
            ((value & 0x3f) << 11) as u32
        }
    } else {
        0
    };
    if n == 1 && !encrypted {
        let start = entry_full_len(method, 1, v);
        if start + size <= i64::MAX {
            Some(
                (
                    PakEntryV {
                        offset,
                        size,
                        uncompressed_size: unc,
                        hash: Seq::new(20, |i: int| 0u8),
                        compression_blocks: seq![
                            PakCompressedBlock {
                                compressed_start: start as i64,
                                compressed_end: (start + size) as i64,
                            },
                        ],
                        compression_block_size: cbs,
                        compression_method_index: method,
                        flags,
                    },
                    q,
                ),
            )
        } else {
            None
        }
    } else if n > 0 {
        match dec_lens(s.skip(q), n as nat) {
            None => None,
            Some((lens, ln)) => Some(
                (
                    PakEntryV {
                        offset,
                        size,
                        uncompressed_size: unc,
                        hash: Seq::new(20, |i: int| 0u8),
                        compression_blocks: blocks_walk(
                            lens,
                            entry_full_len(method, n as int, v),
                            if encrypted {
                                16
                            } else {
                                1
                            },
                        ),
                        compression_block_size: cbs,
                        compression_method_index: method,
                        flags,
                    },
                    q + ln,
                ),
            ),
        }
    } else {
        Some(
            (
                PakEntryV {
                    offset,
                    size,
                    uncompressed_size: unc,
                    hash: Seq::new(20, |i: int| 0u8),
                    compression_blocks: Seq::empty(),
                    compression_block_size: cbs,
                    compression_method_index: method,
                    flags,
                },
                q,
            ),
        )
    }
}

/// Eligibility for the compact form: every field must fit its bit range and
/// the block geometry must be reconstructible from lengths alone.
pub open spec fn can_encode_spec(e: PakEntryV, v: PakVersion) -> bool {
    let n = e.compression_blocks.len() as int;
    let m = e.compression_method_index;
    let cbs = e.compression_block_size;
    let alignment: int = if e.spec_is_encrypted() {
        16
    } else {
        1
    };
    let full = entry_full_len(m, n, v);
    &&& m < 64
    &&& n < 65536
    &&& (e.flags == 0 || e.flags == FLAG_ENCRYPTED)
    &&& (m == 0 ==> n == 0 && e.size == e.uncompressed_size && cbs == 0)
    &&& (m != 0 && n == 0 ==> cbs == 0)
    &&& (m != 0 && n > 0 ==> {
        &&& cbs >> 11 <= 0x3f
        &&& (if (e.uncompressed_size as int) < ((cbs >> 11) as int) * 0x800 {
            e.uncompressed_size as int
        } else {
            ((cbs >> 11) as int) * 0x800
        }) == cbs as int
    })
    &&& (n > 0 ==> {
        &&& (forall|i: int|
            0 <= i < n ==> 0 <= block_len(#[trigger] e.compression_blocks[i]) <= u32::MAX)
        &&& e.compression_blocks[0].compressed_start == full
        &&& (n == 1 ==> full + e.size == e.compression_blocks[0].compressed_start + spec_align(
            block_len(e.compression_blocks[0]),
            alignment,
        ))
        &&& (forall|i: int|
            1 <= i < n ==> (#[trigger] e.compression_blocks[i]).compressed_start
                == e.compression_blocks[i - 1].compressed_start + spec_align(
                block_len(e.compression_blocks[i - 1]),
                alignment,
            ))
    })
}

pub open spec fn block_len(b: PakCompressedBlock) -> int {
    b.compressed_end - b.compressed_start
}

/// Field extraction inverts the packed header.
proof fn lemma_header_bits(ob: u32, ub: u32, zb: u32, m: u32, en: u32, n: u32, p: u32)
    requires
        ob <= 1,
        ub <= 1,
        zb <= 1,
        m < 64,
        en <= 1,
        n < 65536,
        p < 64,
    ensures
        ({
            let v = (ob * 0x80000000 + ub * 0x40000000 + zb * 0x20000000 + m * 0x800000 + en
                * 0x400000 + n * 0x40 + p) as u32;
            &&& (v >> 23) & 0x3f == m
            &&& ((v & 0x80000000u32) != 0) == (ob == 1)
            &&& ((v & 0x40000000u32) != 0) == (ub == 1)
            &&& ((v & 0x20000000u32) != 0) == (zb == 1)
            &&& ((v & 0x400000u32) != 0) == (en == 1)
            &&& (v >> 6) & 0xffff == n
            &&& v & 0x3f == p
        }),
{
    let v = (ob * 0x80000000 + ub * 0x40000000 + zb * 0x20000000 + m * 0x800000 + en * 0x400000 + n
        * 0x40 + p) as u32;
    assert((v >> 23) & 0x3f == m && ((v & 0x80000000u32) != 0) == (ob == 1) && ((v
        & 0x40000000u32) != 0) == (ub == 1) && ((v & 0x20000000u32) != 0) == (zb == 1) && ((v
        & 0x400000u32) != 0) == (en == 1) && (v >> 6) & 0xffff == n && v & 0x3f == p)
        by (bit_vector)
        requires
            ob <= 1 && ub <= 1 && zb <= 1 && m < 64 && en <= 1 && n < 65536 && p < 64 && v == (ob
                * 0x80000000 + ub * 0x40000000 + zb * 0x20000000 + m * 0x800000 + en * 0x400000 + n
                * 0x40 + p) as u32,
    ;
}

// ---------------------------------------------------------------------------
// The V2 index
// ---------------------------------------------------------------------------
/// The split V2 index: a compact blob plus a fallback list of full entries,
/// a path-hash map keyed by seeded FNV64 of the lowercased name, and one or
/// two directory trees. The maps are key-sorted vectors.
pub struct PakIndexV2 {
    /// Mount point.
    pub mount_point: String,
    /// Number of file entries recorded in the pak.
    pub num_entries: u32,
    /// Entries that could not be compactly encoded, in full form.
    pub files: Vec<PakEntry>,
    /// Seed of the path-hash function, differing per pak.
    pub path_hash_seed: u64,
    /// Compact entries, concatenated without framing.
    pub encoded_pak_entries: Vec<u8>,
    /// Materialized entries for blob offsets referenced by the path-hash map.
    pub decoded_pak_entries: Vec<(usize, PakEntry)>,
    pub has_path_hash_index: bool,
    pub path_hash_index_offset: i64,
    pub path_hash_index_size: i64,
    pub path_hash_index_hash: [u8; 20],
    /// Hash of a lowercased filename to the location of its entry, sorted by key.
    pub path_hash_index: Vec<(u64, RawPakEntryLocation)>,
    /// Directory to name to location; read-through, emitted empty.
    pub pruned_directory_index: Vec<(String, Vec<(String, RawPakEntryLocation)>)>,
    pub has_full_directory_index: bool,
    pub full_directory_index_offset: i64,
    pub full_directory_index_size: i64,
    pub full_directory_index_hash: [u8; 20],
    /// Directory to name to location, both levels sorted by key.
    pub full_directory_index: Vec<(String, Vec<(String, RawPakEntryLocation)>)>,
}

/// Strictly ascending u64 keys.
pub open spec fn phi_sorted(m: Seq<(u64, RawPakEntryLocation)>) -> bool {
    forall|i: int, j: int| 0 <= i < j < m.len() ==> (#[trigger] m[i]).0 < (#[trigger] m[j]).0
}

impl PakIndexV2 {
    /// An empty index with both secondary indices enabled.
    pub fn new() -> (r: Self)
        ensures
            r.mount_point@ == Seq::<char>::empty(),
            r.num_entries == 0,
            r.files@ =~= Seq::<PakEntry>::empty(),
            r.path_hash_seed == 0,
            r.encoded_pak_entries@ =~= Seq::<u8>::empty(),
            r.decoded_pak_entries@ =~= Seq::<(usize, PakEntry)>::empty(),
            r.has_path_hash_index == true,
            r.path_hash_index@ =~= Seq::<(u64, RawPakEntryLocation)>::empty(),
            r.pruned_directory_index@.len() == 0,
            r.has_full_directory_index == true,
            r.full_directory_index@.len() == 0,
    {
        PakIndexV2 {
            mount_point: String::new(),
            num_entries: 0,
            files: Vec::new(),
            path_hash_seed: 0,
            encoded_pak_entries: Vec::new(),
            decoded_pak_entries: Vec::new(),
            has_path_hash_index: true,
            path_hash_index_offset: -1,
            path_hash_index_size: 0,
            path_hash_index_hash: [0u8; 20],
            path_hash_index: Vec::new(),
            pruned_directory_index: Vec::new(),
            has_full_directory_index: true,
            full_directory_index_offset: 0,
            full_directory_index_size: 0,
            full_directory_index_hash: [0u8; 20],
            full_directory_index: Vec::new(),
        }
    }

    /// Drops the entries and both trees, keeping the mount point, the seed and
    /// the index-presence flags. The region triples reset to the fresh-index
    /// values: the path-hash offset to the absent marker `-1`, the rest to
    /// zero.
    pub fn clear(&mut self)
        ensures
            final(self).mount_point@ == old(self).mount_point@,
            final(self).path_hash_seed == old(self).path_hash_seed,
            final(self).has_path_hash_index == old(self).has_path_hash_index,
            final(self).has_full_directory_index == old(self).has_full_directory_index,
            final(self).num_entries == 0,
            final(self).files@.len() == 0,
            final(self).encoded_pak_entries@.len() == 0,
            final(self).decoded_pak_entries@.len() == 0,
            final(self).path_hash_index@.len() == 0,
            final(self).pruned_directory_index@.len() == 0,
            final(self).full_directory_index@.len() == 0,
            final(self).path_hash_index_offset == -1,
            final(self).path_hash_index_size == 0,
            final(self).path_hash_index_hash@ == Seq::new(20, |i: int| 0u8),
            final(self).full_directory_index_offset == 0,
            final(self).full_directory_index_size == 0,
            final(self).full_directory_index_hash@ == Seq::new(20, |i: int| 0u8),
    {
        self.num_entries = 0;
        self.files.clear();
        self.encoded_pak_entries.clear();
        self.decoded_pak_entries.clear();
        self.path_hash_index_offset = -1;
        self.path_hash_index_size = 0;
        self.path_hash_index_hash = [0u8; 20];
        self.path_hash_index.clear();
        self.pruned_directory_index.clear();
        self.full_directory_index_offset = 0;
        self.full_directory_index_size = 0;
        self.full_directory_index_hash = [0u8; 20];
        self.full_directory_index.clear();
        proof {
            assert(self.path_hash_index_hash@ =~= Seq::new(20, |i: int| 0u8));
            assert(self.full_directory_index_hash@ =~= Seq::new(20, |i: int| 0u8));
        }
    }
}

/// Exec mirror of `entry_full_len` for versions with a u32 method selector.
pub fn full_len_exec(method: u32, nblocks: u32, version: PakVersion) -> (r: u64)
    requires
        version.spec_at_least(PakVersion::FNameBasedCompressionMethod),
    ensures
        r == entry_full_len(method, nblocks as int, version),
{
    24 + 4 + 20 + (if method != 0 {
        4 + 16 * (nblocks as u64)
    } else {
        0
    }) + 5
}

proof fn lemma_blocks_lens_len(bs: Seq<PakCompressedBlock>)
    ensures
        blocks_lens(bs).len() == 4 * bs.len(),
    decreases bs.len(),
{
    vstd::bytes::lemma_auto_spec_u32_to_from_le_bytes();
    if bs.len() > 0 {
        lemma_blocks_lens_len(bs.drop_first());
    }
}

proof fn lemma_blocks_lens_index(bs: Seq<PakCompressedBlock>, i: int)
    requires
        0 <= i < bs.len(),
    ensures
        blocks_lens(bs).subrange(4 * i, 4 * i + 4) == enc_u32(
            (bs[i].compressed_end - bs[i].compressed_start) as u32,
        ),
    decreases bs.len(),
{
    vstd::bytes::lemma_auto_spec_u32_to_from_le_bytes();
    lemma_blocks_lens_len(bs);
    lemma_blocks_lens_len(bs.drop_first());
    if i == 0 {
        assert(blocks_lens(bs).subrange(0, 4) =~= enc_u32(
            (bs[0].compressed_end - bs[0].compressed_start) as u32,
        ));
    } else {
        lemma_blocks_lens_index(bs.drop_first(), i - 1);
        assert(blocks_lens(bs).subrange(4 * i, 4 * i + 4) =~= blocks_lens(
            bs.drop_first(),
        ).subrange(4 * (i - 1), 4 * (i - 1) + 4));
        assert(bs[i] == bs.drop_first()[i - 1]);
    }
}

proof fn lemma_blocks_lens_push(bs: Seq<PakCompressedBlock>, b: PakCompressedBlock)
    ensures
        blocks_lens(bs.push(b)) == blocks_lens(bs) + enc_u32(
            (b.compressed_end - b.compressed_start) as u32,
        ),
    decreases bs.len(),
{
    let lb = enc_u32((b.compressed_end - b.compressed_start) as u32);
    if bs.len() == 0 {
        assert(bs.push(b)[0] == b);
        assert(bs =~= Seq::<PakCompressedBlock>::empty());
        assert(bs.push(b).drop_first() =~= bs);
        assert(blocks_lens(bs.push(b)) == lb + blocks_lens(bs));
        assert(blocks_lens(bs) =~= Seq::<u8>::empty());
        assert(blocks_lens(bs.push(b)) =~= blocks_lens(bs) + lb);
    } else {
        assert(bs.push(b).drop_first() =~= bs.drop_first().push(b));
        assert(bs.push(b)[0] == bs[0]);
        lemma_blocks_lens_push(bs.drop_first(), b);
        assert(blocks_lens(bs.push(b)) =~= blocks_lens(bs) + lb);
    }
}

/// The stored length list parses back to the lengths of the blocks.
proof fn lemma_dec_lens_of_blocks(bs: Seq<PakCompressedBlock>, rest: Seq<u8>)
    ensures
        dec_lens(blocks_lens(bs) + rest, bs.len() as nat) == Some(
            (
                Seq::new(bs.len() as nat, |i: int| (bs[i].compressed_end - bs[i].compressed_start) as u32),
                4 * bs.len() as int,
            ),
        ),
{
    vstd::bytes::lemma_auto_spec_u32_to_from_le_bytes();
    lemma_blocks_lens_len(bs);
    let s = blocks_lens(bs) + rest;
    let n = bs.len() as nat;
    let parsed = Seq::new(n, |i: int| spec_u32_from_le(s.subrange(4 * i, 4 * i + 4)));
    let want = Seq::new(n, |i: int| (bs[i].compressed_end - bs[i].compressed_start) as u32);
    assert forall|i: int| 0 <= i < bs.len() implies parsed[i] == want[i] by {
        lemma_blocks_lens_index(bs, i);
        assert(s.subrange(4 * i, 4 * i + 4) =~= blocks_lens(bs).subrange(4 * i, 4 * i + 4));
    }
    assert(parsed =~= want);
}

impl PakIndexV2 {
    /// Whether an entry can be stored in the compact bit-packed form.
    pub fn can_encode_entry(entry: &PakEntry, version: PakVersion) -> (r: bool)
        requires
            version.spec_at_least(PakVersion::FNameBasedCompressionMethod),
        ensures
            r == can_encode_spec(entry@, version),
    {
        let m = entry.compression_method_index;
        let n = entry.compression_blocks.len();
        if m >= 64 {
            return false;
        }
        if n >= 65536 {
            return false;
        }
        if !(entry.flags == 0 || entry.flags == FLAG_ENCRYPTED) {
            return false;
        }
        let cbs = entry.compression_block_size;
        if m == 0 {
            return n == 0 && entry.size == entry.uncompressed_size && cbs == 0;
        }
        if n == 0 {
            return cbs == 0;
        }
        if cbs >> 11 > 0x3f {
            return false;
        }
        let packed: u64 = ((cbs >> 11) as u64) * 0x800;
        let recon: u64 = if entry.uncompressed_size < packed {
            entry.uncompressed_size
        } else {
            packed
        };
        if recon != cbs as u64 {
            return false;
        }
        let alignment: u64 = if entry.is_encrypted() {
            16
        } else {
            1
        };
        let full = full_len_exec(m, n as u32, version);
        let b0 = entry.compression_blocks[0];
        let len0: i128 = b0.compressed_end as i128 - b0.compressed_start as i128;
        if len0 < 0 || len0 > u32::MAX as i128 {
            return false;
        }
        if b0.compressed_start != full as i64 {
            proof {
                assert(entry@.compression_blocks[0].compressed_start != entry_full_len(
                    m,
                    n as int,
                    version,
                ));
            }
            return false;
        }
        if n == 1 {
            let a0 = align(len0 as u64, alignment);
            if full as i128 + entry.size as i128 != b0.compressed_start as i128 + a0 as i128 {
                return false;
            }
        }
        let mut i: usize = 1;
        while i < n
            invariant
                1 <= i <= n,
                n == entry.compression_blocks@.len(),
                n < 65536,
                alignment == (if entry@.spec_is_encrypted() {
                    16int
                } else {
                    1int
                }),
                forall|j: int|
                    0 <= j < i as int ==> 0 <= block_len(#[trigger] entry.compression_blocks@[j])
                        <= u32::MAX,
                forall|j: int|
                    1 <= j < i as int ==> (#[trigger] entry.compression_blocks@[j]).compressed_start
                        == entry.compression_blocks@[j - 1].compressed_start + spec_align(
                        block_len(entry.compression_blocks@[j - 1]),
                        alignment as int,
                    ),
            decreases n - i,
        {
            let prev = entry.compression_blocks[i - 1];
            let b = entry.compression_blocks[i];
            let blen: i128 = b.compressed_end as i128 - b.compressed_start as i128;
            if blen < 0 || blen > u32::MAX as i128 {
                return false;
            }
            let plen: i128 = prev.compressed_end as i128 - prev.compressed_start as i128;
            let pa = align(plen as u64, alignment);
            if b.compressed_start as i128 != prev.compressed_start as i128 + pa as i128 {
                return false;
            }
            i = i + 1;
        }
        true
    }

    /// Writes the compact form when the entry is eligible; writes nothing and
    /// reports `false` otherwise.
    #[verifier::rlimit(100)]
    #[verifier::spinoff_prover]
    pub fn encode_entry(w: &mut ArchiveWriter, entry: &PakEntry, version: PakVersion) -> (r: bool)
        requires
            version.spec_at_least(PakVersion::FNameBasedCompressionMethod),
        ensures
            r == can_encode_spec(entry@, version),
            r ==> final(w).data@ == old(w).data@ + enc_compact(entry@),
            !r ==> final(w).data@ == old(w).data@,
    {
        if !Self::can_encode_entry(entry, version) {
            return false;
        }
        let ghost b0 = w.data@;
        let m = entry.compression_method_index;
        let n = entry.compression_blocks.len() as u32;
        let ob: u32 = if entry.offset <= u32::MAX as u64 {
            1
        } else {
            0
        };
        let ub: u32 = if entry.uncompressed_size <= u32::MAX as u64 {
            1
        } else {
            0
        };
        let zb: u32 = if entry.size <= u32::MAX as u64 {
            1
        } else {
            0
        };
        let en: u32 = if entry.is_encrypted() {
            1
        } else {
            0
        };
        let p: u32 = entry.compression_block_size >> 11;
        proof {
            let cbsv: u32 = entry.compression_block_size;
            if !(m != 0 && entry.compression_blocks@.len() > 0) {
                assert(cbsv == 0);
                assert(cbsv >> 11 == 0) by (bit_vector)
                    requires
                        cbsv == 0,
                ;
            }
            assert(p < 64);
        }
        let value: u32 = ob * 0x80000000 + ub * 0x40000000 + zb * 0x20000000 + m * 0x800000 + en
            * 0x400000 + n * 0x40 + p;
        proof {
            assert(value == compact_header(entry@));
        }
        w.ser_u32(value);
        if entry.offset <= u32::MAX as u64 {
            w.ser_u32(entry.offset as u32);
        } else {
            w.ser_u64(entry.offset);
        }
        if entry.uncompressed_size <= u32::MAX as u64 {
            w.ser_u32(entry.uncompressed_size as u32);
        } else {
            w.ser_u64(entry.uncompressed_size);
        }
        if m != 0 {
            if entry.size <= u32::MAX as u64 {
                w.ser_u32(entry.size as u32);
            } else {
                w.ser_u64(entry.size);
            }
        }
        let ghost bmid = w.data@;
        if m != 0 && (entry.compression_blocks.len() > 1 || (entry.compression_blocks.len() == 1
            && entry.is_encrypted())) {
            let mut i: usize = 0;
            let nb = entry.compression_blocks.len();
            while i < nb
                invariant
                    i <= nb,
                    nb == entry.compression_blocks@.len(),
                    forall|j: int|
                        0 <= j < nb as int ==> 0 <= block_len(
                            #[trigger] entry.compression_blocks@[j],
                        ) <= u32::MAX,
                    w.data@ =~= bmid + blocks_lens(entry.compression_blocks@.take(i as int)),
                decreases nb - i,
            {
                let b = entry.compression_blocks[i];
                let blen: i128 = b.compressed_end as i128 - b.compressed_start as i128;
                w.ser_u32(blen as u32);
                proof {
                    lemma_blocks_lens_push(entry.compression_blocks@.take(i as int), b);
                    assert(entry.compression_blocks@.take(i + 1) =~= entry.compression_blocks@.take(
                        i as int,
                    ).push(b));
                    assert(w.data@ =~= bmid + blocks_lens(
                        entry.compression_blocks@.take(i + 1),
                    ));
                }
                i = i + 1;
            }
            proof {
                assert(entry.compression_blocks@.take(nb as int) =~= entry.compression_blocks@);
            }
        }
        proof {
            assert(w.data@ =~= b0 + enc_compact(entry@));
        }
        true
    }
}

impl PakIndexV2 {
    /// Reads one compact entry. The decoded entry carries a zero hash: the
    /// compact form stores none.
    #[verifier::rlimit(100)]
    #[verifier::spinoff_prover]
    pub fn decode_entry(r: &mut ArchiveReader, version: PakVersion) -> (res: Result<
        PakEntry,
        PakError,
    >)
        requires
            old(r).wf(),
            version.spec_at_least(PakVersion::FNameBasedCompressionMethod),
        ensures
            final(r).wf(),
            final(r).data@ == old(r).data@,
            match res {
                Ok(e) => dec_compact(old(r).remaining(), version) == Some(
                    (e@, final(r).pos - old(r).pos),
                ),
                Err(err) => dec_compact(old(r).remaining(), version) is None && (err
                    == PakError::Eof || err == PakError::InvalidData),
            },
    {
        let ghost s = old(r).remaining();
        let ghost p0 = r.pos as int;
        let (value, offset, unc, size) = match de_compact_head(r) {
            Ok(t) => t,
            Err(e) => { return Err(e) },
        };
        let method = (value >> 23) & 0x3f;
        let ghost q = r.pos - p0;
        proof {
            assert(r.remaining() =~= s.skip(q));
        }
        let encrypted = value & 0x400000 != 0;
        let flags: u8 = if encrypted {
            FLAG_ENCRYPTED
        } else {
            0
        };
        let n = (value >> 6) & 0xffff;
        let cbs: u32 = if n > 0 {
            let packed: u64 = ((value & 0x3f) as u64) * 0x800;
            if unc < packed {
                unc as u32
            } else {
                proof {
                    assert(((value & 0x3f) << 11) as u64 == ((value & 0x3f) as u64) * 0x800)
                        by (bit_vector);
                }
                (value & 0x3f) << 11
            }
        } else {
            0
        };
        let mut entry = PakEntry {
            offset,
            size,
            uncompressed_size: unc,
            hash: [0u8; 20],
            compression_blocks: Vec::new(),
            compression_block_size: cbs,
            compression_method_index: method,
            flags,
        };
        proof {
            assert(entry@.hash =~= Seq::new(20, |i: int| 0u8));
            assert(n < 65536) by (bit_vector)
                requires
                    n == (value >> 6) & 0xffff,
            ;
        }
        if n == 1 && !encrypted {
            let start = full_len_exec(method, 1, version);
            if (start as u128) + (size as u128) > i64::MAX as u128 {
                return Err(PakError::InvalidData);
            }
            entry.compression_blocks.push(
                PakCompressedBlock {
                    compressed_start: start as i64,
                    compressed_end: (start + size) as i64,
                },
            );
            proof {
                let parsed = dec_compact_blocks(s, version, value, method, offset, unc, size, q);
                assert(entry@.compression_blocks =~= seq![
                    PakCompressedBlock {
                        compressed_start: entry_full_len(method, 1, version) as i64,
                        compressed_end: (entry_full_len(method, 1, version) + size) as i64,
                    },
                ]);
                assert(parsed == Some((entry@, q)));
                assert(dec_compact(s, version) == Some((entry@, q)));
            }
            return Ok(entry);
        }
        if n > 0 {
            let avail = r.data.len() - r.pos;
            if (avail as u64) < (n as u64) * 4 {
                proof {
                    assert(s.skip(q).len() < 4 * (n as nat));
                }
                return Err(PakError::Eof);
            }
            let lens = match de_len_list(r, n) {
                Ok(v) => v,
                Err(e) => { return Err(e) },
            };
            proof {
                assert(r.remaining() =~= s.skip(q + 4 * (n as int)));
            }
            let alignment: u64 = if encrypted {
                16
            } else {
                1
            };
            let start0 = full_len_exec(method, n, version);
            let blocks = walk_block_list(&lens, start0, alignment);
            entry.compression_blocks = blocks;
            proof {
                assert(dec_compact(s, version) == Some((entry@, q + 4 * (n as int))));
            }
            return Ok(entry);
        }
        proof {
            assert(entry@.compression_blocks =~= Seq::<PakCompressedBlock>::empty());
            assert(dec_compact(s, version) == Some((entry@, q)));
        }
        Ok(entry)
    }
}

/// Parsing a compact entry inverts encoding it: every entry that passes
/// compact eligibility and carries no hash round-trips bit-exactly.
#[verifier::rlimit(100)]
#[verifier::spinoff_prover]
pub proof fn lemma_dec_enc_compact(e: PakEntryV, v: PakVersion, rest: Seq<u8>)
    requires
        can_encode_spec(e, v),
        v.spec_at_least(PakVersion::FNameBasedCompressionMethod),
        e.hash == Seq::new(20, |i: int| 0u8),
    ensures
        dec_compact(enc_compact(e) + rest, v) == Some((e, enc_compact(e).len() as int)),
{
    vstd::bytes::lemma_auto_spec_u32_to_from_le_bytes();
    vstd::bytes::lemma_auto_spec_u64_to_from_le_bytes();
    let s = enc_compact(e) + rest;
    let m = e.compression_method_index;
    let nb = e.compression_blocks.len() as int;
    let cbs = e.compression_block_size;
    let ob: u32 = if e.offset <= u32::MAX {
        1
    } else {
        0
    };
    let ub: u32 = if e.uncompressed_size <= u32::MAX {
        1
    } else {
        0
    };
    let zb: u32 = if e.size <= u32::MAX {
        1
    } else {
        0
    };
    let en: u32 = if e.spec_is_encrypted() {
        1
    } else {
        0
    };
    let p: u32 = cbs >> 11;
    if !(m != 0 && nb > 0) {
        assert(cbs == 0);
        assert(cbs >> 11 == 0) by (bit_vector)
            requires
                cbs == 0,
        ;
    }
    lemma_header_bits(ob, ub, zb, m, en, nb as u32, p);
    let value = compact_header(e);
    assert(value == (ob * 0x80000000 + ub * 0x40000000 + zb * 0x20000000 + m * 0x800000 + en
        * 0x400000 + (nb as u32) * 0x40 + p) as u32);
    let lns: Seq<u8> = if compact_has_lens(e) {
        blocks_lens(e.compression_blocks)
    } else {
        Seq::<u8>::empty()
    };
    lemma_compact_positions(e, lns + rest);
    assert(enc_compact(e) + rest =~= compact_head_bytes(e) + (lns + rest));
    let q = compact_base_len(e);
    assert(dec_u32(s) == Some((value, 4int)));
    let n1: int = if e.offset <= u32::MAX {
        4
    } else {
        8
    };
    let n2: int = if e.uncompressed_size <= u32::MAX {
        4
    } else {
        8
    };
    assert(dec_var(s.skip(4), value & 0x80000000 != 0) == Some((e.offset, n1)));
    assert(dec_var(s.skip(4 + n1), value & 0x40000000 != 0) == Some((e.uncompressed_size, n2)));
    if m != 0 {
        assert(dec_var(s.skip(4 + n1 + n2), value & 0x20000000 != 0) == Some(
            (e.size, q - 4 - n1 - n2),
        ));
    }
    assert(s.skip(q) =~= lns + rest);
    lemma_blocks_lens_len(e.compression_blocks);
    assert(enc_compact(e).len() == q + lns.len());
    lemma_dec_enc_compact_blocks(e, v, rest, s, value, q);
}

/// One u32-or-u64 field round-trips under its width flag.
proof fn lemma_dec_var(x: u64, rest: Seq<u8>)
    ensures
        x <= u32::MAX ==> dec_var(enc_u32(x as u32) + rest, true) == Some((x, 4int)),
        x > u32::MAX ==> dec_var(enc_u64(x) + rest, false) == Some((x, 8int)),
{
    if x <= u32::MAX {
        lemma_dec_u32(x as u32, rest);
        assert((x as u32) as u64 == x) by (bit_vector)
            requires
                x <= 0xffffffffu64,
        ;
    } else {
        lemma_dec_u64(x, rest);
    }
}

/// The block part of the compact round trip.
#[verifier::rlimit(100)]
#[verifier::spinoff_prover]
proof fn lemma_dec_enc_compact_blocks(
    e: PakEntryV,
    v: PakVersion,
    rest: Seq<u8>,
    s: Seq<u8>,
    value: u32,
    q: int,
)
    requires
        can_encode_spec(e, v),
        v.spec_at_least(PakVersion::FNameBasedCompressionMethod),
        e.hash == Seq::new(20, |i: int| 0u8),
        value == compact_header(e),
        (value >> 23) & 0x3f == e.compression_method_index,
        ((value & 0x400000u32) != 0) == e.spec_is_encrypted(),
        (value >> 6) & 0xffff == e.compression_blocks.len() as u32,
        value & 0x3f == e.compression_block_size >> 11,
        s.skip(q) == (if compact_has_lens(e) {
            blocks_lens(e.compression_blocks)
        } else {
            Seq::<u8>::empty()
        }) + rest,
        q == enc_compact(e).len() - (if compact_has_lens(e) {
            4 * e.compression_blocks.len() as int
        } else {
            0int
        }),
        q >= 4,
    ensures
        dec_compact_blocks(
            s,
            v,
            value,
            e.compression_method_index,
            e.offset,
            e.uncompressed_size,
            e.size,
            q,
        ) == Some((e, enc_compact(e).len() as int)),
{
    vstd::bytes::lemma_auto_spec_u32_to_from_le_bytes();
    let m = e.compression_method_index;
    let bs = e.compression_blocks;
    let nb = bs.len() as int;
    let cbs = e.compression_block_size;
    let encrypted = e.spec_is_encrypted();
    let alignment: int = if encrypted {
        16
    } else {
        1
    };
    assert(e.flags == 0 || e.flags == FLAG_ENCRYPTED);
    let fl8: u8 = e.flags;
    assert(encrypted == (fl8 == FLAG_ENCRYPTED)) by (bit_vector)
        requires
            fl8 == 0 || fl8 == 1,
            encrypted == ((fl8 & 1u8) == 1u8),
    ;
    // the reconstructed block size equals the stored one
    if nb > 0 {
        assert(m != 0 || nb == 0);
        assert((((value & 0x3f) as int) * 0x800) == ((cbs >> 11) as int) * 0x800);
        assert((((value & 0x3f) << 11) as u32) == ((cbs >> 11) << 11) as u32);
        assert((((cbs >> 11) << 11) as u32) as int == ((cbs >> 11) as int) * 0x800) by (bit_vector)
            requires
                cbs >> 11 <= 0x3f,
        ;
    }
    if nb == 1 && !encrypted {
        let start = entry_full_len(m, 1, v);
        assert(spec_align(block_len(bs[0]), 1) == block_len(bs[0]));
        assert(start + e.size == bs[0].compressed_start + block_len(bs[0]));
        assert(bs[0].compressed_start == start);
        assert(start + e.size == bs[0].compressed_end);
        assert(start + e.size <= i64::MAX);
        let parsed = dec_compact_blocks(s, v, value, m, e.offset, e.uncompressed_size, e.size, q);
        assert(parsed is Some);
        let pe = parsed->Some_0.0;
        assert(pe.compression_blocks =~= bs);
        assert(pe =~= e);
        assert(!compact_has_lens(e));
    } else if nb > 0 {
        assert(compact_has_lens(e));
        lemma_dec_lens_of_blocks(bs, rest);
        assert(s.skip(q) == blocks_lens(bs) + rest);
        let lens = Seq::new(
            bs.len() as nat,
            |i: int| (bs[i].compressed_end - bs[i].compressed_start) as u32,
        );
        assert(dec_lens(s.skip(q), bs.len() as nat) == Some((lens, 4 * nb)));
        lemma_walk_reconstruct(bs, lens, entry_full_len(m, nb, v), alignment);
        let parsed = dec_compact_blocks(s, v, value, m, e.offset, e.uncompressed_size, e.size, q);
        assert(parsed is Some);
        let pe = parsed->Some_0.0;
        assert(pe =~= e);
    } else {
        assert(cbs == 0);
        let parsed = dec_compact_blocks(s, v, value, m, e.offset, e.uncompressed_size, e.size, q);
        assert(parsed is Some);
        let pe = parsed->Some_0.0;
        assert(pe.compression_blocks =~= bs);
        assert(pe =~= e);
        assert(!compact_has_lens(e));
    }
}

/// Walking the stored lengths rebuilds exactly the original block list.
proof fn lemma_walk_reconstruct(
    bs: Seq<PakCompressedBlock>,
    lens: Seq<u32>,
    start: int,
    alignment: int,
)
    requires
        alignment == 1 || alignment == 16,
        lens.len() == bs.len(),
        forall|i: int| 0 <= i < bs.len() ==> 0 <= block_len(#[trigger] bs[i]) <= u32::MAX,
        forall|i: int| 0 <= i < bs.len() ==> lens[i] == block_len(#[trigger] bs[i]),
        bs.len() > 0 ==> bs[0].compressed_start == start,
        forall|i: int|
            1 <= i < bs.len() ==> (#[trigger] bs[i]).compressed_start == bs[i
                - 1].compressed_start + spec_align(block_len(bs[i - 1]), alignment),
    ensures
        blocks_walk(lens, start, alignment) == bs,
    decreases bs.len(),
{
    if bs.len() == 0 {
        assert(blocks_walk(lens, start, alignment) =~= bs);
    } else {
        assert(start == bs[0].compressed_start);
        assert(start + lens[0] == bs[0].compressed_end);
        let start2 = start + spec_align(lens[0] as int, alignment);
        if bs.len() > 1 {
            assert(bs[1].compressed_start == start2);
        }
        lemma_walk_reconstruct(bs.drop_first(), lens.drop_first(), start2, alignment);
        assert(blocks_walk(lens, start, alignment) =~= bs);
    }
}

/// A single uncompressed-aligned block needs no stored length list; the
/// ENCRYPTED flag forces the list, at four bytes for the one block.
pub proof fn lemma_single_block_lens(e: PakEntryV, v: PakVersion)
    requires
        can_encode_spec(e, v),
        e.compression_blocks.len() == 1,
    ensures
        compact_has_lens(e) == e.spec_is_encrypted(),
        e.spec_is_encrypted() ==> enc_compact(e).len() == compact_base_len(e) + 4,
        !e.spec_is_encrypted() ==> enc_compact(e).len() == compact_base_len(e),
{
    vstd::bytes::lemma_auto_spec_u32_to_from_le_bytes();
    vstd::bytes::lemma_auto_spec_u64_to_from_le_bytes();
    assert(e.compression_method_index != 0);
    lemma_blocks_lens_len(e.compression_blocks);
}

/// Header plus the three size fields, without any block-length list.
pub open spec fn compact_base_len(e: PakEntryV) -> int {
    4 + (if e.offset <= u32::MAX {
        4int
    } else {
        8int
    }) + (if e.uncompressed_size <= u32::MAX {
        4int
    } else {
        8int
    }) + (if e.compression_method_index != 0 {
        if e.size <= u32::MAX {
            4int
        } else {
            8int
        }
    } else {
        0int
    })
}


/// Reads `n` little-endian u32 block lengths.
fn de_len_list(r: &mut ArchiveReader, n: u32) -> (res: Result<Vec<u32>, PakError>)
    requires
        old(r).wf(),
    ensures
        final(r).wf(),
        final(r).data@ == old(r).data@,
        match res {
            Ok(lens) => dec_lens(old(r).remaining(), n as nat) == Some((lens@, 4 * (n as int)))
                && final(r).pos == old(r).pos + 4 * (n as int),
            Err(e) => dec_lens(old(r).remaining(), n as nat) is None && e == PakError::Eof,
        },
{
    let ghost region = old(r).remaining();
    let ghost p0 = r.pos as int;
    let avail = r.data.len() - r.pos;
    if (avail as u64) < (n as u64) * 4 {
        proof {
            assert(region.len() < 4 * (n as nat));
        }
        return Err(PakError::Eof);
    }
    let mut lens: Vec<u32> = Vec::new();
    let mut i: usize = 0;
    while i < n as usize
        invariant
            r.wf(),
            r.data@ == old(r).data@,
            i <= n as usize,
            region == old(r).data@.subrange(p0, old(r).data@.len() as int),
            region.len() >= 4 * (n as int),
            0 <= p0 <= r.data@.len(),
            r.pos == p0 + 4 * i,
            lens@.len() == i as int,
            forall|j: int|
                0 <= j < i as int ==> lens@[j] == spec_u32_from_le(
                    region.subrange(4 * j, 4 * j + 4),
                ),
        decreases n as int - i,
    {
        proof {
            assert(r.remaining() =~= region.skip(4 * (i as int)));
            assert(region.skip(4 * (i as int)).subrange(0, 4) =~= region.subrange(
                4 * (i as int),
                4 * (i as int) + 4,
            ));
        }
        let x = match r.de_u32() {
            Ok(x) => x,
            Err(e) => { return Err(e) },
        };
        lens.push(x);
        i = i + 1;
    }
    proof {
        let lens_pair = dec_lens(region, n as nat)->Some_0;
        assert(lens@ =~= lens_pair.0);
    }
    Ok(lens)
}

/// Rebuilds the block list by walking the stored lengths.
fn walk_block_list(lens: &Vec<u32>, start0: u64, alignment: u64) -> (blocks: Vec<
    PakCompressedBlock,
>)
    requires
        lens@.len() < 65536,
        start0 <= 2000000,
        1 <= alignment <= 16,
    ensures
        blocks@ == blocks_walk(lens@, start0 as int, alignment as int),
{
    let mut blocks: Vec<PakCompressedBlock> = Vec::new();
    let mut cursor: u64 = start0;
    let mut k: usize = 0;
    proof {
        assert(lens@.skip(0) =~= lens@);
        assert(blocks@ + blocks_walk(lens@, start0 as int, alignment as int) =~= blocks_walk(
            lens@,
            start0 as int,
            alignment as int,
        ));
    }
    while k < lens.len()
        invariant
            k <= lens@.len(),
            lens@.len() < 65536,
            1 <= alignment <= 16,
            start0 <= 2000000,
            cursor <= start0 + (k as int) * 0x100000010,
            blocks_walk(lens@, start0 as int, alignment as int) =~= blocks@ + blocks_walk(
                lens@.skip(k as int),
                cursor as int,
                alignment as int,
            ),
        decreases lens@.len() - k,
    {
        let len_k = lens[k];
        let b = PakCompressedBlock {
            compressed_start: cursor as i64,
            compressed_end: (cursor + len_k as u64) as i64,
        };
        blocks.push(b);
        let next = align(len_k as u64, alignment);
        proof {
            assert(lens@.skip(k as int)[0] == lens@[k as int]);
            assert(lens@.skip(k as int).drop_first() =~= lens@.skip(k as int + 1));
            assert(blocks_walk(lens@.skip(k as int), cursor as int, alignment as int) =~= seq![b]
                + blocks_walk(
                lens@.skip(k as int + 1),
                cursor as int + spec_align(lens@[k as int] as int, alignment as int),
                alignment as int,
            ));
        }
        cursor = cursor + next;
        k = k + 1;
    }
    proof {
        assert(lens@.skip(lens@.len() as int) =~= Seq::<u32>::empty());
        assert(blocks_walk(lens@, start0 as int, alignment as int) =~= blocks@);
    }
    blocks
}

/// Reads the compact header and the width-flagged offset, uncompressed size
/// and size fields.
#[verifier::rlimit(100)]
#[verifier::spinoff_prover]
fn de_compact_head(r: &mut ArchiveReader) -> (res: Result<(u32, u64, u64, u64), PakError>)
    requires
        old(r).wf(),
    ensures
        final(r).wf(),
        final(r).data@ == old(r).data@,
        match res {
            Ok(t) => ({
                let s = old(r).remaining();
                let value = t.0;
                let method = (value >> 23) & 0x3f;
                let n1: int = if value & 0x80000000 != 0 {
                    4
                } else {
                    8
                };
                let n2: int = if value & 0x40000000 != 0 {
                    4
                } else {
                    8
                };
                let n3: int = if method != 0 {
                    if value & 0x20000000 != 0 {
                        4int
                    } else {
                        8int
                    }
                } else {
                    0int
                };
                &&& dec_u32(s) == Some((value, 4int))
                &&& dec_var(s.skip(4), value & 0x80000000 != 0) == Some((t.1, n1))
                &&& dec_var(s.skip(4 + n1), value & 0x40000000 != 0) == Some((t.2, n2))
                &&& (method != 0 ==> dec_var(s.skip(4 + n1 + n2), value & 0x20000000 != 0) == Some(
                    (t.3, n3),
                ))
                &&& (method == 0 ==> t.3 == t.2)
                &&& final(r).pos == old(r).pos + 4 + n1 + n2 + n3
            }),
            Err(e) => dec_compact(old(r).remaining(), PakVersion::PathHashIndex) is None
                && dec_compact(old(r).remaining(), PakVersion::Fnv64BugFix) is None && dec_compact(
                old(r).remaining(),
                PakVersion::FNameBasedCompressionMethod,
            ) is None && dec_compact(
                old(r).remaining(),
                PakVersion::FNameBasedCompressionMethod422,
            ) is None && e == PakError::Eof,
        },
{
    let ghost s = old(r).remaining();
    let ghost p0 = r.pos as int;
    let value = match r.de_u32() {
        Ok(x) => x,
        Err(e) => { return Err(e) },
    };
    let method = (value >> 23) & 0x3f;
    proof {
        assert(r.remaining() =~= s.skip(4));
    }
    let offset: u64;
    if value & 0x80000000 != 0 {
        offset = match r.de_u32() {
            Ok(x) => x as u64,
            Err(e) => { return Err(e) },
        };
    } else {
        offset = match r.de_u64() {
            Ok(x) => x,
            Err(e) => { return Err(e) },
        };
    }
    let ghost n1 = r.pos - p0 - 4;
    proof {
        assert(dec_var(s.skip(4), value & 0x80000000 != 0) == Some((offset, n1)));
        assert(r.remaining() =~= s.skip(4 + n1));
    }
    let unc: u64;
    if value & 0x40000000 != 0 {
        unc = match r.de_u32() {
            Ok(x) => x as u64,
            Err(e) => { return Err(e) },
        };
    } else {
        unc = match r.de_u64() {
            Ok(x) => x,
            Err(e) => { return Err(e) },
        };
    }
    let ghost n2 = r.pos - p0 - 4 - n1;
    proof {
        assert(dec_var(s.skip(4 + n1), value & 0x40000000 != 0) == Some((unc, n2)));
        assert(r.remaining() =~= s.skip(4 + n1 + n2));
    }
    let size: u64;
    if method != 0 {
        if value & 0x20000000 != 0 {
            size = match r.de_u32() {
                Ok(x) => x as u64,
                Err(e) => { return Err(e) },
            };
        } else {
            size = match r.de_u64() {
                Ok(x) => x,
                Err(e) => { return Err(e) },
            };
        }
        proof {
            assert(dec_var(s.skip(4 + n1 + n2), value & 0x20000000 != 0) == Some(
                (size, r.pos - p0 - 4 - n1 - n2),
            ));
        }
    } else {
        size = unc;
    }
    Ok((value, offset, unc, size))
}


/// The compact bytes before any block-length list.
pub open spec fn compact_head_bytes(e: PakEntryV) -> Seq<u8> {
    enc_u32(compact_header(e)) + (if e.offset <= u32::MAX {
        enc_u32(e.offset as u32)
    } else {
        enc_u64(e.offset)
    }) + (if e.uncompressed_size <= u32::MAX {
        enc_u32(e.uncompressed_size as u32)
    } else {
        enc_u64(e.uncompressed_size)
    }) + (if e.compression_method_index != 0 {
        if e.size <= u32::MAX {
            enc_u32(e.size as u32)
        } else {
            enc_u64(e.size)
        }
    } else {
        Seq::<u8>::empty()
    })
}

/// Parse positions of the width-flagged fields of the compact head.
#[verifier::rlimit(100)]
#[verifier::spinoff_prover]
proof fn lemma_compact_positions(e: PakEntryV, tail: Seq<u8>)
    ensures
        ({
            let s = compact_head_bytes(e) + tail;
            let n1: int = if e.offset <= u32::MAX {
                4
            } else {
                8
            };
            let n2: int = if e.uncompressed_size <= u32::MAX {
                4
            } else {
                8
            };
            &&& compact_head_bytes(e).len() == compact_base_len(e)
            &&& dec_u32(s) == Some((compact_header(e), 4int))
            &&& dec_var(s.skip(4), e.offset <= u32::MAX) == Some((e.offset, n1))
            &&& dec_var(s.skip(4 + n1), e.uncompressed_size <= u32::MAX) == Some(
                (e.uncompressed_size, n2),
            )
            &&& (e.compression_method_index != 0 ==> dec_var(
                s.skip(4 + n1 + n2),
                e.size <= u32::MAX,
            ) == Some((e.size, compact_base_len(e) - 4 - n1 - n2)))
            &&& s.skip(compact_base_len(e)) == tail
        }),
{
    vstd::bytes::lemma_auto_spec_u32_to_from_le_bytes();
    vstd::bytes::lemma_auto_spec_u64_to_from_le_bytes();
    let s = compact_head_bytes(e) + tail;
    let m = e.compression_method_index;
    let ofs: Seq<u8> = if e.offset <= u32::MAX {
        enc_u32(e.offset as u32)
    } else {
        enc_u64(e.offset)
    };
    let uns: Seq<u8> = if e.uncompressed_size <= u32::MAX {
        enc_u32(e.uncompressed_size as u32)
    } else {
        enc_u64(e.uncompressed_size)
    };
    let szs: Seq<u8> = if m != 0 {
        if e.size <= u32::MAX {
            enc_u32(e.size as u32)
        } else {
            enc_u64(e.size)
        }
    } else {
        Seq::<u8>::empty()
    };
    lemma_dec_u32(compact_header(e), ofs + uns + szs + tail);
    assert(s =~= enc_u32(compact_header(e)) + (ofs + uns + szs + tail));
    lemma_dec_var(e.offset, uns + szs + tail);
    assert(s.skip(4) =~= ofs + (uns + szs + tail));
    let n1: int = if e.offset <= u32::MAX {
        4
    } else {
        8
    };
    lemma_dec_var(e.uncompressed_size, szs + tail);
    assert(s.skip(4 + n1) =~= uns + (szs + tail));
    let n2: int = if e.uncompressed_size <= u32::MAX {
        4
    } else {
        8
    };
    if m != 0 {
        lemma_dec_var(e.size, tail);
        assert(s.skip(4 + n1 + n2) =~= szs + tail);
    }
    assert(s.skip(compact_base_len(e)) =~= tail);
}

// ---------------------------------------------------------------------------
// Sorted maps and path hashing
// ---------------------------------------------------------------------------
/// Byte-lexicographic order.
pub open spec fn lex_lt(a: Seq<u8>, b: Seq<u8>) -> bool
    decreases a.len(),
{
    if b.len() == 0 {
        false
    } else if a.len() == 0 {
        true
    } else if a[0] != b[0] {
        a[0] < b[0]
    } else {
        lex_lt(a.drop_first(), b.drop_first())
    }
}

/// Order on strings: byte-lexicographic over their UTF-8 encodings.
pub open spec fn str_lt(a: Seq<char>, b: Seq<char>) -> bool {
    lex_lt(encode_utf8(a), encode_utf8(b))
}

proof fn lemma_lex_lt_skip(a: Seq<u8>, b: Seq<u8>, i: int)
    requires
        0 <= i <= a.len(),
        i <= b.len(),
        forall|j: int| 0 <= j < i ==> a[j] == b[j],
    ensures
        lex_lt(a, b) == lex_lt(a.skip(i), b.skip(i)),
    decreases i,
{
    if i == 0 {
        assert(a.skip(0) =~= a);
        assert(b.skip(0) =~= b);
    } else {
        assert(a[0] == b[0]);
        assert(lex_lt(a, b) == lex_lt(a.drop_first(), b.drop_first()));
        lemma_lex_lt_skip(a.drop_first(), b.drop_first(), i - 1);
        assert(a.drop_first().skip(i - 1) =~= a.skip(i));
        assert(b.drop_first().skip(i - 1) =~= b.skip(i));
    }
}

/// Three-way byte comparison: negative, zero or positive as `a` is below,
/// equal to or above `b` in the lexicographic order.
fn bytes_cmp3(a: &[u8], b: &[u8]) -> (r: i32)
    ensures
        r == -1 || r == 0 || r == 1,
        (r == -1) == lex_lt(a@, b@),
        (r == 1) == lex_lt(b@, a@),
        (r == 0) == (a@ == b@),
{
    let mut i: usize = 0;
    while i < a.len() && i < b.len()
        invariant
            i <= a@.len(),
            i <= b@.len(),
            forall|j: int| 0 <= j < i as int ==> a@[j] == b@[j],
        decreases a@.len() - i,
    {
        let x = *vstd::slice::slice_index_get(a, i);
        let y = *vstd::slice::slice_index_get(b, i);
        if x < y {
            proof {
                lemma_lex_lt_skip(a@, b@, i as int);
                lemma_lex_lt_skip(b@, a@, i as int);
                assert(lex_lt(a@.skip(i as int), b@.skip(i as int)));
                assert(!lex_lt(b@.skip(i as int), a@.skip(i as int)));
                assert(a@[i as int] != b@[i as int]);
                assert(a@ != b@);
            }
            return -1;
        }
        if x > y {
            proof {
                lemma_lex_lt_skip(a@, b@, i as int);
                lemma_lex_lt_skip(b@, a@, i as int);
                assert(a@ != b@);
            }
            return 1;
        }
        i = i + 1;
    }
    proof {
        lemma_lex_lt_skip(a@, b@, i as int);
        lemma_lex_lt_skip(b@, a@, i as int);
    }
    if a.len() == b.len() {
        proof {
            assert(a@ =~= b@);
        }
        0
    } else if a.len() < b.len() {
        proof {
            assert(a@ != b@);
        }
        -1
    } else {
        proof {
            assert(a@ != b@);
        }
        1
    }
}

/// Three-way comparison of strings by their UTF-8 bytes.
pub fn str_cmp3(a: &str, b: &str) -> (r: i32)
    ensures
        r == -1 || r == 0 || r == 1,
        (r == -1) == str_lt(a@, b@),
        (r == 1) == str_lt(b@, a@),
        (r == 0) == (a.spec_bytes() == b.spec_bytes()),
{
    bytes_cmp3(a.as_bytes(), b.as_bytes())
}

/// Relies on str::to_lowercase: the result is a pure function of the
/// characters alone.
pub uninterp spec fn lower_of(s: Seq<char>) -> Seq<char>;

/// Relies on str::to_lowercase, which lowercases per the Unicode tables; an
/// empty string stays empty.
#[verifier::external_body]
fn lowercase(s: &str) -> (r: String)
    ensures
        r@ == lower_of(s@),
        s@.len() == 0 ==> r@.len() == 0,
{
    s.to_lowercase()
}

/// Key lookup in the path-hash map.
pub open spec fn phi_has_key(m: Seq<(u64, RawPakEntryLocation)>, k: u64) -> bool {
    exists|i: int| 0 <= i < m.len() && (#[trigger] m[i]).0 == k
}

/// Inserts into the sorted path-hash map; a key already present is a
/// collision and is refused.
fn phi_insert(m: &mut Vec<(u64, RawPakEntryLocation)>, k: u64, loc: RawPakEntryLocation) -> (r:
    Result<(), PakError>)
    requires
        phi_sorted(old(m)@),
    ensures
        phi_sorted(final(m)@),
        match r {
            Ok(()) => !phi_has_key(old(m)@, k) && phi_has_key(final(m)@, k) && final(m)@.len()
                == old(m)@.len() + 1 && (exists|i: int|
                0 <= i <= old(m)@.len() && final(m)@ == old(m)@.insert(i, (k, loc))) && phi_at(
                final(m)@,
                k,
            ) == loc && (forall|h2: u64|
                h2 != k && phi_has_key(old(m)@, h2) ==> phi_has_key(final(m)@, h2) && phi_at(
                    final(m)@,
                    h2,
                ) == phi_at(old(m)@, h2)),
            Err(e) => e == PakError::Other && phi_has_key(old(m)@, k) && final(m)@ == old(m)@,
        },
{
    let mut i: usize = 0;
    while i < m.len() && m[i].0 < k
        invariant
            i <= m@.len(),
            phi_sorted(m@),
            m@ == old(m)@,
            forall|j: int| 0 <= j < i as int ==> (#[trigger] m@[j]).0 < k,
        decreases m@.len() - i,
    {
        i = i + 1;
    }
    if i < m.len() && m[i].0 == k {
        return Err(PakError::Other);
    }
    proof {
        assert(forall|j: int| i as int <= j < m@.len() ==> (#[trigger] m@[j]).0 > k);
    }
    m.insert(i, (k, loc));
    proof {
        assert(final(m)@[i as int].0 == k);
        lemma_phi_at(final(m)@, i as int, k);
        assert forall|h2: u64| h2 != k && phi_has_key(old(m)@, h2) implies phi_has_key(
            final(m)@,
            h2,
        ) && phi_at(final(m)@, h2) == phi_at(old(m)@, h2) by {
            let j = choose|j: int| 0 <= j < old(m)@.len() && (#[trigger] old(m)@[j]).0 == h2;
            lemma_phi_at(old(m)@, j, h2);
            if j < i as int {
                assert(final(m)@[j] == old(m)@[j]);
                lemma_phi_at(final(m)@, j, h2);
            } else {
                assert(final(m)@[j + 1] == old(m)@[j]);
                lemma_phi_at(final(m)@, j + 1, h2);
            }
        }
    }
    Ok(())
}

/// The location stored under a key of the path-hash map.
pub open spec fn phi_at(m: Seq<(u64, RawPakEntryLocation)>, k: u64) -> RawPakEntryLocation {
    m[choose|i: int| 0 <= i < m.len() && (#[trigger] m[i]).0 == k].1
}

/// In a sorted map, the value chosen for a key is the value at its slot.
proof fn lemma_phi_at(m: Seq<(u64, RawPakEntryLocation)>, i: int, k: u64)
    requires
        phi_sorted(m),
        0 <= i < m.len(),
        m[i].0 == k,
    ensures
        phi_at(m, k) == m[i].1,
{
    assert(forall|j: int| 0 <= j < m.len() && j != i ==> (#[trigger] m[j]).0 != k);
}

/// Sorted-by-name inner map of a directory.
pub open spec fn inner_sorted(m: Seq<(String, RawPakEntryLocation)>) -> bool {
    forall|i: int, j: int|
        0 <= i < j < m.len() ==> str_lt((#[trigger] m[i]).0@, (#[trigger] m[j]).0@)
}

/// Sorted-by-directory outer map with sorted inner maps.
pub open spec fn dir_wf(d: Seq<(String, Vec<(String, RawPakEntryLocation)>)>) -> bool {
    &&& forall|i: int, j: int|
        0 <= i < j < d.len() ==> str_lt((#[trigger] d[i]).0@, (#[trigger] d[j]).0@)
    &&& forall|i: int| 0 <= i < d.len() ==> inner_sorted((#[trigger] d[i]).1@)
}

/// The submap of a directory, keyed by UTF-8 bytes.
pub open spec fn dir_find(
    d: Seq<(String, Vec<(String, RawPakEntryLocation)>)>,
    key: Seq<u8>,
) -> Option<Seq<(String, RawPakEntryLocation)>>
    decreases d.len(),
{
    if d.len() == 0 {
        None
    } else if str_bytes(d[0].0@) == key {
        Some(d[0].1@)
    } else {
        dir_find(d.drop_first(), key)
    }
}

/// The location under a name, keyed by UTF-8 bytes.
pub open spec fn name_find(m: Seq<(String, RawPakEntryLocation)>, key: Seq<u8>) -> Option<
    RawPakEntryLocation,
>
    decreases m.len(),
{
    if m.len() == 0 {
        None
    } else if str_bytes(m[0].0@) == key {
        Some(m[0].1)
    } else {
        name_find(m.drop_first(), key)
    }
}

proof fn lemma_name_find_at(m: Seq<(String, RawPakEntryLocation)>, i: int)
    requires
        0 <= i < m.len(),
        forall|j: int| 0 <= j < i ==> str_bytes((#[trigger] m[j]).0@) != str_bytes(m[i].0@),
    ensures
        name_find(m, str_bytes(m[i].0@)) == Some(m[i].1),
    decreases i,
{
    if i > 0 {
        lemma_name_find_at(m.drop_first(), i - 1);
    }
}

proof fn lemma_dir_find_miss(d: Seq<(String, Vec<(String, RawPakEntryLocation)>)>, key: Seq<u8>)
    requires
        forall|j: int| 0 <= j < d.len() ==> str_bytes((#[trigger] d[j]).0@) != key,
    ensures
        dir_find(d, key) is None,
    decreases d.len(),
{
    if d.len() > 0 {
        lemma_dir_find_miss(d.drop_first(), key);
    }
}

proof fn lemma_name_find_miss(m: Seq<(String, RawPakEntryLocation)>, key: Seq<u8>)
    requires
        forall|j: int| 0 <= j < m.len() ==> str_bytes((#[trigger] m[j]).0@) != key,
    ensures
        name_find(m, key) is None,
    decreases m.len(),
{
    if m.len() > 0 {
        lemma_name_find_miss(m.drop_first(), key);
    }
}

proof fn lemma_dir_find_at(d: Seq<(String, Vec<(String, RawPakEntryLocation)>)>, i: int)
    requires
        0 <= i < d.len(),
        forall|j: int| 0 <= j < i ==> str_bytes((#[trigger] d[j]).0@) != str_bytes(d[i].0@),
    ensures
        dir_find(d, str_bytes(d[i].0@)) == Some(d[i].1@),
    decreases i,
{
    if i > 0 {
        lemma_dir_find_at(d.drop_first(), i - 1);
    }
}

/// Distinct byte keys have distinct lexicographic positions.
proof fn lemma_sorted_keys_distinct(a: Seq<u8>, b: Seq<u8>)
    requires
        lex_lt(a, b) || lex_lt(b, a),
    ensures
        a != b,
    decreases a.len(),
{
    if a.len() > 0 && b.len() > 0 && a[0] == b[0] {
        lemma_sorted_keys_distinct(a.drop_first(), b.drop_first());
        if a == b {
            assert(a.drop_first() =~= b.drop_first());
        }
    } else {
        if a == b {
            if a.len() > 0 {
                assert(a[0] == b[0]);
            }
        }
    }
}


/// The byte-lexicographic order is transitive.
proof fn lemma_lex_lt_trans(a: Seq<u8>, b: Seq<u8>, c: Seq<u8>)
    requires
        lex_lt(a, b),
        lex_lt(b, c),
    ensures
        lex_lt(a, c),
    decreases a.len() + b.len() + c.len(),
{
    if a.len() > 0 && b.len() > 0 && c.len() > 0 {
        if a[0] == b[0] && b[0] == c[0] {
            lemma_lex_lt_trans(a.drop_first(), b.drop_first(), c.drop_first());
        }
    }
}

/// Inserts a name into a sorted inner map; an equal key is overwritten.
fn name_map_insert(m: &mut Vec<(String, RawPakEntryLocation)>, name: String, loc: RawPakEntryLocation)
    requires
        inner_sorted(old(m)@),
    ensures
        inner_sorted(final(m)@),
        name_find(final(m)@, str_bytes(name@)) == Some(loc),
        forall|lk: Seq<u8>|
            lk != str_bytes(name@) ==> name_find(final(m)@, lk) == name_find(old(m)@, lk),
{
    let mut i: usize = 0;
    while i < m.len() && str_cmp3(m[i].0.as_str(), name.as_str()) == -1
        invariant
            i <= m@.len(),
            inner_sorted(m@),
            m@ == old(m)@,
            forall|j: int| 0 <= j < i as int ==> str_lt((#[trigger] m@[j]).0@, name@),
        decreases m@.len() - i,
    {
        i = i + 1;
    }
    if i < m.len() && str_cmp3(m[i].0.as_str(), name.as_str()) == 0 {
        let slot = vstd::std_specs::vec::vec_index_mut(m, i);
        slot.1 = loc;
        proof {
            assert(final(m)@[i as int].1 == loc);
            assert(final(m)@[i as int].0 == old(m)@[i as int].0);
            assert(forall|j: int, k: int|
                0 <= j < k < final(m)@.len() ==> str_lt(
                    (#[trigger] final(m)@[j]).0@,
                    (#[trigger] final(m)@[k]).0@,
                ));
            assert forall|j: int|
                0 <= j < i as int implies str_bytes((#[trigger] final(m)@[j]).0@)
                != str_bytes(final(m)@[i as int].0@) by {
                lemma_sorted_keys_distinct(str_bytes(final(m)@[j].0@), str_bytes(final(m)@[i as int].0@));
            }
            lemma_name_find_at(final(m)@, i as int);
            assert(str_bytes(old(m)@[i as int].0@) == str_bytes(name@));
            assert forall|lk: Seq<u8>| lk != str_bytes(name@) implies name_find(final(m)@, lk)
                == name_find(old(m)@, lk) by {
                if exists|s: int|
                    0 <= s < old(m)@.len() && str_bytes((#[trigger] old(m)@[s]).0@) == lk {
                    let s = choose|s: int|
                        0 <= s < old(m)@.len() && str_bytes((#[trigger] old(m)@[s]).0@) == lk;
                    assert(s != i as int);
                    assert forall|j: int|
                        0 <= j < s implies str_bytes((#[trigger] old(m)@[j]).0@) != str_bytes(
                        old(m)@[s].0@,
                    ) by {
                        lemma_sorted_keys_distinct(str_bytes(old(m)@[j].0@), str_bytes(old(m)@[s].0@));
                    }
                    lemma_name_find_at(old(m)@, s);
                    assert(final(m)@[s] == old(m)@[s]);
                    assert forall|j: int|
                        0 <= j < s implies str_bytes((#[trigger] final(m)@[j]).0@) != str_bytes(
                        final(m)@[s].0@,
                    ) by {
                        lemma_sorted_keys_distinct(
                            str_bytes(final(m)@[j].0@),
                            str_bytes(final(m)@[s].0@),
                        );
                    }
                    lemma_name_find_at(final(m)@, s);
                } else {
                    lemma_name_find_miss(old(m)@, lk);
                    assert forall|j: int|
                        0 <= j < final(m)@.len() implies str_bytes(
                        (#[trigger] final(m)@[j]).0@,
                    ) != lk by {
                        assert(final(m)@[j].0 == old(m)@[j].0);
                    }
                    lemma_name_find_miss(final(m)@, lk);
                }
            }
        }
        return ;
    }
    proof {
        if i < m@.len() {
            assert(str_lt(name@, m@[i as int].0@));
        }
    }
    m.insert(i, (name, loc));
    proof {
        assert(final(m)@[i as int].0 == name);
        assert(final(m)@[i as int].1 == loc);
        assert forall|j: int, k: int| 0 <= j < k < final(m)@.len() implies str_lt(
            (#[trigger] final(m)@[j]).0@,
            (#[trigger] final(m)@[k]).0@,
        ) by {
            if j == i as int && k > i as int && k - 1 > i as int {
                lemma_lex_lt_trans(
                    str_bytes(name@),
                    str_bytes(old(m)@[i as int].0@),
                    str_bytes(old(m)@[k - 1].0@),
                );
            }
        }
        assert forall|j: int|
            0 <= j < i as int implies str_bytes((#[trigger] final(m)@[j]).0@)
            != str_bytes(name@) by {
            lemma_sorted_keys_distinct(str_bytes(final(m)@[j].0@), str_bytes(name@));
        }
        lemma_name_find_at(final(m)@, i as int);
        assert forall|lk: Seq<u8>| lk != str_bytes(name@) implies name_find(final(m)@, lk)
            == name_find(old(m)@, lk) by {
            if exists|s: int|
                0 <= s < old(m)@.len() && str_bytes((#[trigger] old(m)@[s]).0@) == lk {
                let s = choose|s: int|
                    0 <= s < old(m)@.len() && str_bytes((#[trigger] old(m)@[s]).0@) == lk;
                assert forall|j: int|
                    0 <= j < s implies str_bytes((#[trigger] old(m)@[j]).0@) != str_bytes(
                    old(m)@[s].0@,
                ) by {
                    lemma_sorted_keys_distinct(str_bytes(old(m)@[j].0@), str_bytes(old(m)@[s].0@));
                }
                lemma_name_find_at(old(m)@, s);
                let s2: int = if s < i as int {
                    s
                } else {
                    s + 1
                };
                assert(final(m)@[s2] == old(m)@[s]);
                assert forall|j: int|
                    0 <= j < s2 implies str_bytes((#[trigger] final(m)@[j]).0@) != str_bytes(
                    final(m)@[s2].0@,
                ) by {
                    if j == i as int {
                    } else {
                        let jo: int = if j < i as int {
                            j
                        } else {
                            j - 1
                        };
                        assert(final(m)@[j] == old(m)@[jo]);
                        lemma_sorted_keys_distinct(
                            str_bytes(old(m)@[jo].0@),
                            str_bytes(old(m)@[s].0@),
                        );
                    }
                }
                lemma_name_find_at(final(m)@, s2);
            } else {
                lemma_name_find_miss(old(m)@, lk);
                assert forall|j: int|
                    0 <= j < final(m)@.len() implies str_bytes((#[trigger] final(m)@[j]).0@)
                    != lk by {
                    if j == i as int {
                    } else {
                        let jo: int = if j < i as int {
                            j
                        } else {
                            j - 1
                        };
                        assert(final(m)@[j] == old(m)@[jo]);
                    }
                }
                lemma_name_find_miss(final(m)@, lk);
            }
        }
    }
}

/// Inserts a leaf name under a directory, creating the directory on first use.
fn dir_map_insert(
    d: &mut Vec<(String, Vec<(String, RawPakEntryLocation)>)>,
    dir: String,
    leaf: String,
    loc: RawPakEntryLocation,
)
    requires
        dir_wf(old(d)@),
    ensures
        dir_wf(final(d)@),
        ({
            match dir_find(final(d)@, str_bytes(dir@)) {
                Some(sub) => name_find(sub, str_bytes(leaf@)) == Some(loc),
                None => false,
            }
        }),
        forall|dk: Seq<u8>|
            dk != str_bytes(dir@) ==> dir_find(final(d)@, dk) == dir_find(old(d)@, dk),
        forall|lk: Seq<u8>|
            lk != str_bytes(leaf@) ==> name_find(dir_find(final(d)@, str_bytes(dir@))->Some_0, lk)
                == (match dir_find(old(d)@, str_bytes(dir@)) {
                Some(s0) => name_find(s0, lk),
                None => None::<RawPakEntryLocation>,
            }),
{
    let mut i: usize = 0;
    while i < d.len() && str_cmp3(d[i].0.as_str(), dir.as_str()) == -1
        invariant
            i <= d@.len(),
            dir_wf(d@),
            d@ == old(d)@,
            forall|j: int| 0 <= j < i as int ==> str_lt((#[trigger] d@[j]).0@, dir@),
        decreases d@.len() - i,
    {
        i = i + 1;
    }
    if i < d.len() && str_cmp3(d[i].0.as_str(), dir.as_str()) == 0 {
        let ghost dkey = str_bytes(d@[i as int].0@);
        let slot = vstd::std_specs::vec::vec_index_mut(d, i);
        name_map_insert(&mut slot.1, leaf, loc);
        proof {
            assert(final(d)@[i as int].0 == old(d)@[i as int].0);
            assert(forall|j: int|
                0 <= j < final(d)@.len() && j != i as int ==> #[trigger] final(d)@[j] == old(
                    d,
                )@[j]);
            assert forall|j: int|
                0 <= j < i as int implies str_bytes((#[trigger] final(d)@[j]).0@)
                != str_bytes(final(d)@[i as int].0@) by {
                lemma_sorted_keys_distinct(
                    str_bytes(final(d)@[j].0@),
                    str_bytes(final(d)@[i as int].0@),
                );
            }
            lemma_dir_find_at(final(d)@, i as int);
            assert(str_bytes(final(d)@[i as int].0@) == str_bytes(dir@));
            assert(dir_find(final(d)@, str_bytes(dir@)) == Some(final(d)@[i as int].1@));
            assert(str_bytes(old(d)@[i as int].0@) == str_bytes(dir@));
            assert forall|j: int|
                0 <= j < i as int implies str_bytes((#[trigger] old(d)@[j]).0@) != str_bytes(
                old(d)@[i as int].0@,
            ) by {
                lemma_sorted_keys_distinct(
                    str_bytes(old(d)@[j].0@),
                    str_bytes(old(d)@[i as int].0@),
                );
            }
            lemma_dir_find_at(old(d)@, i as int);
            assert(dir_find(old(d)@, str_bytes(dir@)) == Some(old(d)@[i as int].1@));
            assert forall|dk: Seq<u8>| dk != str_bytes(dir@) implies dir_find(final(d)@, dk)
                == dir_find(old(d)@, dk) by {
                if exists|s: int|
                    0 <= s < old(d)@.len() && str_bytes((#[trigger] old(d)@[s]).0@) == dk {
                    let s = choose|s: int|
                        0 <= s < old(d)@.len() && str_bytes((#[trigger] old(d)@[s]).0@) == dk;
                    assert(s != i as int);
                    assert forall|j: int|
                        0 <= j < s implies str_bytes((#[trigger] old(d)@[j]).0@) != str_bytes(
                        old(d)@[s].0@,
                    ) by {
                        lemma_sorted_keys_distinct(
                            str_bytes(old(d)@[j].0@),
                            str_bytes(old(d)@[s].0@),
                        );
                    }
                    lemma_dir_find_at(old(d)@, s);
                    assert(final(d)@[s] == old(d)@[s]);
                    assert forall|j: int|
                        0 <= j < s implies str_bytes((#[trigger] final(d)@[j]).0@) != str_bytes(
                        final(d)@[s].0@,
                    ) by {
                        lemma_sorted_keys_distinct(
                            str_bytes(final(d)@[j].0@),
                            str_bytes(final(d)@[s].0@),
                        );
                    }
                    lemma_dir_find_at(final(d)@, s);
                } else {
                    lemma_dir_find_miss(old(d)@, dk);
                    assert forall|j: int|
                        0 <= j < final(d)@.len() implies str_bytes(
                        (#[trigger] final(d)@[j]).0@,
                    ) != dk by {
                        assert(final(d)@[j].0 == old(d)@[j].0);
                    }
                    lemma_dir_find_miss(final(d)@, dk);
                }
            }
        }
        return ;
    }
    proof {
        if i < d@.len() {
            assert(str_lt(dir@, d@[i as int].0@));
        }
    }
    let mut sub: Vec<(String, RawPakEntryLocation)> = Vec::new();
    name_map_insert(&mut sub, leaf, loc);
    let ghost subv = sub@;
    d.insert(i, (dir, sub));
    proof {
        assert(final(d)@[i as int].0 == dir);
        assert(final(d)@[i as int].1@ == subv);
        assert forall|j: int, k: int| 0 <= j < k < final(d)@.len() implies str_lt(
            (#[trigger] final(d)@[j]).0@,
            (#[trigger] final(d)@[k]).0@,
        ) by {
            if j == i as int && k > i as int && k - 1 > i as int {
                lemma_lex_lt_trans(
                    str_bytes(dir@),
                    str_bytes(old(d)@[i as int].0@),
                    str_bytes(old(d)@[k - 1].0@),
                );
            }
        }
        assert forall|j: int|
            0 <= j < i as int implies str_bytes((#[trigger] final(d)@[j]).0@)
            != str_bytes(dir@) by {
            lemma_sorted_keys_distinct(str_bytes(final(d)@[j].0@), str_bytes(dir@));
        }
        lemma_dir_find_at(final(d)@, i as int);
        assert forall|j: int|
            0 <= j < old(d)@.len() implies str_bytes((#[trigger] old(d)@[j]).0@) != str_bytes(
            dir@,
        ) by {
            if j < i as int {
                lemma_sorted_keys_distinct(str_bytes(old(d)@[j].0@), str_bytes(dir@));
            } else if j == i as int {
                lemma_sorted_keys_distinct(str_bytes(dir@), str_bytes(old(d)@[j].0@));
            } else {
                lemma_lex_lt_trans(
                    str_bytes(dir@),
                    str_bytes(old(d)@[i as int].0@),
                    str_bytes(old(d)@[j].0@),
                );
                lemma_sorted_keys_distinct(str_bytes(dir@), str_bytes(old(d)@[j].0@));
            }
        }
        lemma_dir_find_miss(old(d)@, str_bytes(dir@));
        assert forall|dk: Seq<u8>| dk != str_bytes(dir@) implies dir_find(final(d)@, dk)
            == dir_find(old(d)@, dk) by {
            if exists|s: int|
                0 <= s < old(d)@.len() && str_bytes((#[trigger] old(d)@[s]).0@) == dk {
                let s = choose|s: int|
                    0 <= s < old(d)@.len() && str_bytes((#[trigger] old(d)@[s]).0@) == dk;
                assert forall|j: int|
                    0 <= j < s implies str_bytes((#[trigger] old(d)@[j]).0@) != str_bytes(
                    old(d)@[s].0@,
                ) by {
                    lemma_sorted_keys_distinct(str_bytes(old(d)@[j].0@), str_bytes(old(d)@[s].0@));
                }
                lemma_dir_find_at(old(d)@, s);
                let s2: int = if s < i as int {
                    s
                } else {
                    s + 1
                };
                assert(final(d)@[s2] == old(d)@[s]);
                assert forall|j: int|
                    0 <= j < s2 implies str_bytes((#[trigger] final(d)@[j]).0@) != str_bytes(
                    final(d)@[s2].0@,
                ) by {
                    if j == i as int {
                    } else {
                        let jo: int = if j < i as int {
                            j
                        } else {
                            j - 1
                        };
                        assert(final(d)@[j] == old(d)@[jo]);
                        lemma_sorted_keys_distinct(
                            str_bytes(old(d)@[jo].0@),
                            str_bytes(old(d)@[s].0@),
                        );
                    }
                }
                lemma_dir_find_at(final(d)@, s2);
            } else {
                lemma_dir_find_miss(old(d)@, dk);
                assert forall|j: int|
                    0 <= j < final(d)@.len() implies str_bytes((#[trigger] final(d)@[j]).0@)
                    != dk by {
                    if j == i as int {
                    } else {
                        let jo: int = if j < i as int {
                            j
                        } else {
                            j - 1
                        };
                        assert(final(d)@[j] == old(d)@[jo]);
                    }
                }
                lemma_dir_find_miss(final(d)@, dk);
            }
        }
    }
}

/// Any counter of the index is at its limit, so nothing more can be added.
pub open spec fn add_counters_full(x: PakIndexV2) -> bool {
    ||| x.num_entries == u32::MAX
    ||| x.encoded_pak_entries@.len() >= i32::MAX - 1
    ||| x.files@.len() >= i32::MAX - 1
}

/// The name's path hash is already taken in the index's hash map.
pub open spec fn add_collides(x: PakIndexV2, name: Seq<char>, version: PakVersion) -> bool {
    x.has_path_hash_index && phi_has_key(
        x.path_hash_index@,
        PakIndexV2::spec_path_hash(name, x.path_hash_seed, version),
    )
}

/// The name's UTF-8 bytes contain a directory separator.
pub open spec fn has_slash(name: Seq<char>) -> bool {
    exists|i: int| 0 <= i < str_bytes(name).len() && str_bytes(name)[i] == 47u8
}

/// The byte position of the last separator of the name.
pub open spec fn last_slash(name: Seq<char>) -> int {
    choose|i: int|
        0 <= i < str_bytes(name).len() && str_bytes(name)[i] == 47u8 && (forall|j: int|
            i < j < str_bytes(name).len() ==> str_bytes(name)[j] != 47u8)
}

/// Splitting valid UTF-8 at an ASCII separator leaves two valid halves: the
/// separator is a one-byte character, so both cut points are character
/// boundaries.
proof fn lemma_split_at_slash(b: Seq<u8>, i: int)
    requires
        vstd::utf8::valid_utf8(b),
        0 <= i < b.len(),
        b[i] == 47u8,
    ensures
        vstd::utf8::valid_utf8(b.subrange(0, i)),
        vstd::utf8::valid_utf8(b.subrange(i + 1, b.len() as int)),
{
    vstd::utf8::is_char_boundary_start_end_of_seq(b);
    if i > 0 {
        vstd::utf8::is_char_boundary_iff_not_is_continuation_byte(b, i);
        assert(!vstd::utf8::is_continuation_byte(47u8)) by {
            assert(47u8 & 0xc0 != 0x80) by (bit_vector);
        }
    }
    vstd::utf8::valid_utf8_split(b, i);
    let rest = b.subrange(i, b.len() as int);
    assert(rest[0] == 47u8);
    assert(vstd::utf8::is_leading_byte_width_1(47u8)) by {
        assert(47u8 & 0x80 == 0) by (bit_vector);
    }
    assert(vstd::utf8::length_of_first_scalar(rest) == 1);
    assert(vstd::utf8::pop_first_scalar(rest) =~= b.subrange(i + 1, b.len() as int));
    assert(vstd::utf8::valid_utf8(vstd::utf8::pop_first_scalar(rest)));
}

/// The location the next added entry gets: into the blob when compactly
/// encodable, else into the full-form list.
pub open spec fn add_loc(x0: PakIndexV2, entry: PakEntry, version: PakVersion) -> PakEntryLocation {
    if can_encode_spec(entry@, version) {
        PakEntryLocation::Offset(x0.encoded_pak_entries@.len() as usize)
    } else {
        PakEntryLocation::Index(x0.files@.len() as usize)
    }
}

/// What `add` has done to the blob, lists, count and hash map once past the
/// counter checks, whether or not the later directory step succeeds.
pub open spec fn add_core(
    x0: PakIndexV2,
    x1: PakIndexV2,
    entry: PakEntry,
    name: Seq<char>,
    version: PakVersion,
) -> bool {
    &&& (if can_encode_spec(entry@, version) {
        &&& x1.encoded_pak_entries@ == x0.encoded_pak_entries@ + enc_compact(entry@)
        &&& x1.decoded_pak_entries@ == x0.decoded_pak_entries@.push(
            ((x0.encoded_pak_entries@.len() as usize), entry),
        )
        &&& x1.files@ == x0.files@
    } else {
        &&& x1.files@ == x0.files@.push(entry)
        &&& x1.encoded_pak_entries@ == x0.encoded_pak_entries@
        &&& x1.decoded_pak_entries@ == x0.decoded_pak_entries@
    })
    &&& x1.num_entries == x0.num_entries + 1
    &&& (x0.has_path_hash_index ==> {
        let h = PakIndexV2::spec_path_hash(name, x0.path_hash_seed, version);
        &&& phi_has_key(x1.path_hash_index@, h)
        &&& phi_at(x1.path_hash_index@, h).spec_get() == add_loc(x0, entry, version)
        &&& x1.path_hash_index@.len() == x0.path_hash_index@.len() + 1
        &&& (forall|h2: u64|
            h2 != h && phi_has_key(x0.path_hash_index@, h2) ==> phi_has_key(
                x1.path_hash_index@,
                h2,
            ) && phi_at(x1.path_hash_index@, h2) == phi_at(x0.path_hash_index@, h2))
        &&& (forall|h2: u64|
            phi_has_key(x1.path_hash_index@, h2) ==> phi_has_key(x0.path_hash_index@, h2) || h2
                == h)
    })
    &&& (!x0.has_path_hash_index ==> x1.path_hash_index@ == x0.path_hash_index@)
}

impl PakIndexV2 {
    /// The path-hash key of a name at a version: seeded FNV64 of the
    /// lowercased name, with the corrected constants from `Fnv64BugFix` on.
    pub open spec fn spec_path_hash(name: Seq<char>, seed: u64, version: PakVersion) -> u64 {
        if version.spec_at_least(PakVersion::Fnv64BugFix) {
            spec_fnv64(encode_utf8(lower_of(name)), seed)
        } else {
            spec_legacy_fnv64(encode_utf8(lower_of(name)), seed)
        }
    }


    /// Adds a named entry: the entry goes to the compact blob exactly when it
    /// passes compact eligibility, else to the full-form list. `Other` exactly
    /// when a second name hashes to an occupied path-hash key; `InvalidInput`
    /// exactly when a counter is full or, with a directory tree, the name has
    /// no separator. The name splits at its last `/` into directory and leaf.
    #[verifier::rlimit(100)]
    #[verifier::spinoff_prover]
    pub fn add(&mut self, name: String, entry: PakEntry, version: PakVersion) -> (r: Result<
        PakEntryLocation,
        PakError,
    >)
        requires
            version.spec_at_least(PakVersion::PathHashIndex),
            phi_sorted(old(self).path_hash_index@),
            dir_wf(old(self).full_directory_index@),
        ensures
            phi_sorted(final(self).path_hash_index@),
            dir_wf(final(self).full_directory_index@),
            final(self).mount_point@ == old(self).mount_point@,
            final(self).path_hash_seed == old(self).path_hash_seed,
            final(self).has_path_hash_index == old(self).has_path_hash_index,
            final(self).has_full_directory_index == old(self).has_full_directory_index,
            final(self).pruned_directory_index@ == old(self).pruned_directory_index@,
            match r {
                Ok(loc) => {
                    &&& !add_counters_full(*old(self))
                    &&& !add_collides(*old(self), name@, version)
                    &&& (old(self).has_full_directory_index ==> has_slash(name@))
                    &&& loc == add_loc(*old(self), entry, version)
                    &&& add_core(*old(self), *final(self), entry, name@, version)
                    &&& (old(self).has_full_directory_index ==> ({
                        let b = str_bytes(name@);
                        let ls = last_slash(name@);
                        &&& (match dir_find(
                            final(self).full_directory_index@,
                            b.subrange(0, ls),
                        ) {
                            Some(sub) => match name_find(sub, b.subrange(ls + 1, b.len() as int)) {
                                Some(rl) => rl.spec_get() == loc,
                                None => false,
                            },
                            None => false,
                        })
                        &&& (forall|dk: Seq<u8>|
                            dk != b.subrange(0, ls) ==> dir_find(
                                final(self).full_directory_index@,
                                dk,
                            ) == dir_find(old(self).full_directory_index@, dk))
                        &&& (forall|lk: Seq<u8>|
                            lk != b.subrange(ls + 1, b.len() as int) ==> name_find(
                                dir_find(
                                    final(self).full_directory_index@,
                                    b.subrange(0, ls),
                                )->Some_0,
                                lk,
                            ) == (match dir_find(
                                old(self).full_directory_index@,
                                b.subrange(0, ls),
                            ) {
                                Some(s0) => name_find(s0, lk),
                                None => None::<RawPakEntryLocation>,
                            }))
                    }))
                    &&& (!old(self).has_full_directory_index ==> final(self).full_directory_index@
                        == old(self).full_directory_index@)
                },
                Err(e) => {
                    &&& (e == PakError::InvalidInput || e == PakError::Other)
                    &&& ((e == PakError::InvalidInput) <==> (add_counters_full(*old(self)) || (
                    !add_counters_full(*old(self)) && !add_collides(*old(self), name@, version)
                        && old(self).has_full_directory_index && !has_slash(name@))))
                    &&& ((e == PakError::Other) <==> (!add_counters_full(*old(self))
                        && add_collides(*old(self), name@, version)))
                    &&& (add_counters_full(*old(self)) ==> *final(self) == *old(self))
                    &&& (e == PakError::Other ==> final(self).path_hash_index@
                        == old(self).path_hash_index@ && final(self).full_directory_index@
                        == old(self).full_directory_index@)
                    &&& (e == PakError::InvalidInput && !add_counters_full(*old(self))
                        ==> add_core(*old(self), *final(self), entry, name@, version)
                        && final(self).full_directory_index@
                        == old(self).full_directory_index@)
                },
            },
    {
        if self.num_entries == u32::MAX {
            return Err(PakError::InvalidInput);
        }
        let offset = self.encoded_pak_entries.len();
        if offset >= i32::MAX as usize - 1 {
            return Err(PakError::InvalidInput);
        }
        if self.files.len() >= i32::MAX as usize - 1 {
            return Err(PakError::InvalidInput);
        }
        let mut w = ArchiveWriter { data: Vec::new() };
        let location: RawPakEntryLocation;
        if Self::encode_entry(&mut w, &entry, version) {
            let mut blob = w.data;
            self.encoded_pak_entries.append(&mut blob);
            self.decoded_pak_entries.push((offset, entry));
            location = RawPakEntryLocation::from_offset(offset);
        } else {
            location = RawPakEntryLocation::from_index(self.files.len());
            self.files.push(entry);
        }
        self.num_entries = self.num_entries + 1;
        if self.has_path_hash_index {
            let lname = lowercase(name.as_str());
            let h: u64;
            if version.at_least(PakVersion::Fnv64BugFix) {
                h = fnv64(lname.as_str(), self.path_hash_seed);
            } else {
                h = legacy_fnv64(lname.as_str(), self.path_hash_seed);
            }
            let ghost phi_before = self.path_hash_index@;
            match phi_insert(&mut self.path_hash_index, h, location) {
                Ok(()) => (),
                Err(e) => { return Err(e) },
            }
            proof {
                let wi = choose|wi: int|
                    0 <= wi <= phi_before.len() && self.path_hash_index@ == phi_before.insert(
                        wi,
                        (h, location),
                    );
                assert forall|h2: u64|
                    phi_has_key(phi_before, h2) implies phi_has_key(
                    self.path_hash_index@,
                    h2,
                ) by {
                    let j = choose|j: int| 0 <= j < phi_before.len() && (#[trigger] phi_before[j]).0
                        == h2;
                    if j < wi {
                        assert(self.path_hash_index@[j].0 == h2);
                    } else {
                        assert(self.path_hash_index@[j + 1].0 == h2);
                    }
                }
                assert forall|h2: u64|
                    phi_has_key(self.path_hash_index@, h2) implies phi_has_key(phi_before, h2)
                    || h2 == h by {
                    let j = choose|j: int|
                        0 <= j < self.path_hash_index@.len() && (
                        #[trigger] self.path_hash_index@[j]).0 == h2;
                    if j < wi {
                        assert(phi_before[j].0 == h2);
                    } else if j > wi {
                        assert(phi_before[j - 1].0 == h2);
                    }
                }
            }
        }
        if self.has_full_directory_index {
            let bytes = name.as_str().as_bytes_vec();
            let mut slash: usize = bytes.len();
            let mut i: usize = bytes.len();
            loop
                invariant_except_break
                    i <= bytes@.len(),
                    slash == bytes@.len(),
                    forall|j: int| i as int <= j < bytes@.len() ==> bytes@[j] != 47u8,
                ensures
                    (slash == bytes@.len() && forall|j: int|
                        0 <= j < bytes@.len() ==> bytes@[j] != 47u8) || (slash < bytes@.len()
                        && bytes@[slash as int] == 47u8 && forall|j: int|
                        slash < j < bytes@.len() ==> bytes@[j] != 47u8),
                decreases i,
            {
                if i == 0 {
                    break ;
                }
                i = i - 1;
                if bytes[i] == 47 {
                    slash = i;
                    break ;
                }
            }
            if slash == bytes.len() {
                proof {
                    assert(!has_slash(name@));
                }
                return Err(PakError::InvalidInput);
            }
            proof {
                assert(has_slash(name@));
                vstd::utf8::encode_utf8_valid_utf8(name@);
                lemma_split_at_slash(bytes@, slash as int);
                assert(last_slash(name@) == slash as int) by {
                    let b = str_bytes(name@);
                    let ls = last_slash(name@);
                    assert(0 <= ls < b.len() && b[ls] == 47u8 && (forall|j: int|
                        ls < j < b.len() ==> b[j] != 47u8));
                    if ls < slash as int {
                        assert(b[slash as int] != 47u8);
                    }
                    if ls > slash as int {
                        assert(b[ls] != 47u8);
                    }
                }
            }
            let dir_b = vstd::slice::slice_to_vec(
                vstd::slice::slice_subrange(bytes.as_slice(), 0, slash),
            );
            let leaf_b = vstd::slice::slice_to_vec(
                vstd::slice::slice_subrange(bytes.as_slice(), slash + 1, bytes.len()),
            );
            let dir = match crate::archive::string_from_utf8(dir_b) {
                Ok(s) => s,
                Err(_) => {
                    proof {
                        assert(false);
                    }
                    return Err(PakError::InvalidInput)
                },
            };
            let leaf = match crate::archive::string_from_utf8(leaf_b) {
                Ok(s) => s,
                Err(_) => {
                    proof {
                        assert(false);
                    }
                    return Err(PakError::InvalidInput)
                },
            };
            proof {
                vstd::utf8::decode_utf8_encode_utf8(bytes@.subrange(0, slash as int));
                vstd::utf8::decode_utf8_encode_utf8(
                    bytes@.subrange(slash as int + 1, bytes@.len() as int),
                );
                assert(str_bytes(dir@) == bytes@.subrange(0, slash as int));
                assert(str_bytes(leaf@) == bytes@.subrange(slash as int + 1, bytes@.len() as int));
            }
            dir_map_insert(&mut self.full_directory_index, dir, leaf, location);
        }
        Ok(location.get())
    }

    /// The hashed entries: each non-deleted path hash with its materialized
    /// entry, in map order. Blob locations come from the decoded cache, list
    /// locations from the full-form list; a location that points at nothing
    /// is corruption.
    #[verifier::rlimit(100)]
    #[verifier::spinoff_prover]
    pub fn hashed_entries(&self) -> (r: Result<Vec<(u64, PakEntry)>, PakError>)
        ensures
            match r {
                Ok(v) => ({
                    let live = live_pairs(self.path_hash_index@);
                    &&& v@.len() == live.len()
                    &&& forall|j: int|
                        0 <= j < live.len() ==> ({
                            let pr = #[trigger] v@[j];
                            &&& pr.0 == live[j].0
                            &&& loc_entry_ok(
                                live[j].1,
                                pr.1@,
                                self.decoded_pak_entries@,
                                self.files@,
                            )
                        })
                }),
                Err(e) => e == PakError::InvalidData && (exists|j: int|
                    0 <= j < live_pairs(self.path_hash_index@).len() && match (
                    #[trigger] live_pairs(self.path_hash_index@)[j]).1.spec_get() {
                        PakEntryLocation::Offset(o) => cache_misses(
                            self.decoded_pak_entries@,
                            o,
                        ),
                        PakEntryLocation::Index(ix) => ix >= self.files@.len(),
                        PakEntryLocation::Deleted => false,
                    }),
            },
    {
        let ghost map = self.path_hash_index@;
        let mut out: Vec<(u64, PakEntry)> = Vec::new();
        let mut i: usize = 0;
        proof {
            assert(map.take(0) =~= Seq::<(u64, RawPakEntryLocation)>::empty());
            assert(live_pairs(map.take(0)) =~= Seq::<(u64, RawPakEntryLocation)>::empty());
        }
        while i < self.path_hash_index.len()
            invariant
                i <= self.path_hash_index@.len(),
                map == self.path_hash_index@,
                out@.len() == live_pairs(map.take(i as int)).len(),
                forall|j: int|
                    0 <= j < out@.len() ==> ({
                        let pr = #[trigger] out@[j];
                        &&& pr.0 == live_pairs(map.take(i as int))[j].0
                        &&& loc_entry_ok(
                            live_pairs(map.take(i as int))[j].1,
                            pr.1@,
                            self.decoded_pak_entries@,
                            self.files@,
                        )
                    }),
            decreases self.path_hash_index@.len() - i,
        {
            let (h, loc) = self.path_hash_index[i];
            proof {
                lemma_live_pairs_push(map.take(i as int), map[i as int]);
                assert(map.take(i + 1) =~= map.take(i as int).push(map[i as int]));
                lemma_live_pairs_split(map, i as int);
                assert(map.skip(i as int)[0] == map[i as int]);
            }
            match loc.get() {
                PakEntryLocation::Deleted => {
                    proof {
                        assert(live_pairs(map.take(i as int + 1)) =~= live_pairs(
                            map.take(i as int),
                        ));
                    }
                },
                PakEntryLocation::Offset(o) => {
                    match self.find_decoded(o) {
                        Some(e) => {
                            out.push((h, e));
                            proof {
                                let t1 = live_pairs(map.take(i as int + 1));
                                assert(t1 =~= live_pairs(map.take(i as int)) + seq![
                                    map[i as int],
                                ]);
                                assert(t1[t1.len() - 1] == map[i as int]);
                                assert(out@[out@.len() - 1].0 == map[i as int].0);
                            }
                        },
                        None => {
                            proof {
                                let jw = live_pairs(map.take(i as int)).len() as int;
                                assert(live_pairs(map.skip(i as int))[0] == map[i as int]);
                                assert(live_pairs(map)[jw] == map[i as int]);
                            }
                            return Err(PakError::InvalidData);
                        },
                    }
                },
                PakEntryLocation::Index(idx) => {
                    if idx >= self.files.len() {
                        proof {
                            let jw = live_pairs(map.take(i as int)).len() as int;
                            assert(live_pairs(map.skip(i as int))[0] == map[i as int]);
                            assert(live_pairs(map)[jw] == map[i as int]);
                        }
                        return Err(PakError::InvalidData);
                    }
                    out.push((h, self.files[idx].duplicate()));
                    proof {
                        let t1 = live_pairs(map.take(i as int + 1));
                        assert(t1 =~= live_pairs(map.take(i as int)) + seq![map[i as int]]);
                        assert(t1[t1.len() - 1] == map[i as int]);
                        assert(out@[out@.len() - 1].0 == map[i as int].0);
                    }
                },
            }
            i = i + 1;
        }
        proof {
            assert(map.take(map.len() as int) =~= map);
        }
        Ok(out)
    }

    /// The entries referenced by the path-hash map, in map order, deleted
    /// locations skipped.
    #[verifier::rlimit(100)]
    #[verifier::spinoff_prover]
    pub fn entries(&self) -> (r: Result<Vec<PakEntry>, PakError>)
        ensures
            match r {
                Ok(v) => ({
                    let live = live_pairs(self.path_hash_index@);
                    &&& v@.len() == live.len()
                    &&& forall|j: int|
                        #![trigger v@[j]]
                        0 <= j < live.len() ==> loc_entry_ok(
                            live[j].1,
                            v@[j]@,
                            self.decoded_pak_entries@,
                            self.files@,
                        )
                }),
                Err(e) => e == PakError::InvalidData,
            },
    {
        match self.hashed_entries() {
            Ok(hs) => {
                let mut out: Vec<PakEntry> = Vec::new();
                let mut i: usize = 0;
                while i < hs.len()
                    invariant
                        i <= hs@.len(),
                        out@.len() == i as int,
                        forall|j: int| 0 <= j < i as int ==> (#[trigger] out@[j])@ == hs@[j].1@,
                    decreases hs@.len() - i,
                {
                    out.push(hs[i].1.duplicate());
                    i = i + 1;
                }
                proof {
                    let live = live_pairs(self.path_hash_index@);
                    assert forall|j: int|
                        #![trigger out@[j]]
                        0 <= j < live.len() implies loc_entry_ok(
                        live[j].1,
                        out@[j]@,
                        self.decoded_pak_entries@,
                        self.files@,
                    ) by {
                        let prh = hs@[j];
                        assert(loc_entry_ok(
                            live[j].1,
                            prh.1@,
                            self.decoded_pak_entries@,
                            self.files@,
                        ));
                        assert(out@[j]@ == hs@[j].1@);
                    }
                }
                Ok(out)
            },
            Err(e) => Err(e),
        }
    }

    /// The materialized entry cached for a blob offset; the first match wins.
    pub fn find_decoded(&self, offset: usize) -> (r: Option<PakEntry>)
        ensures
            match r {
                Some(e) => cache_has(self.decoded_pak_entries@, offset, e@),
                None => cache_misses(self.decoded_pak_entries@, offset),
            },
    {
        let mut i: usize = 0;
        while i < self.decoded_pak_entries.len()
            invariant
                i <= self.decoded_pak_entries@.len(),
                forall|j: int|
                    0 <= j < i as int ==> (#[trigger] self.decoded_pak_entries@[j]).0 != offset,
            decreases self.decoded_pak_entries@.len() - i,
        {
            if self.decoded_pak_entries[i].0 == offset {
                return Some(self.decoded_pak_entries[i].1.duplicate());
            }
            i = i + 1;
        }
        None
    }

    /// The pruned directory tree flattened to (directory, name, location), in
    /// stored order; read-through only, the builder emits it empty.
    pub fn pruned_entries(&self) -> (r: Vec<(String, String, PakEntryLocation)>)
        ensures
            r@.len() == flat_dir(self.pruned_directory_index@).len(),
            forall|j: int|
                0 <= j < r@.len() ==> ({
                    let f = flat_dir(self.pruned_directory_index@)[j];
                    &&& (#[trigger] r@[j]).0@ == f.0
                    &&& r@[j].1@ == f.1
                    &&& r@[j].2 == f.2
                }),
    {
        Self::flatten_dir(&self.pruned_directory_index)
    }

    /// The full directory tree flattened to (directory, name, location), in
    /// stored order.
    pub fn full_entries(&self) -> (r: Vec<(String, String, PakEntryLocation)>)
        ensures
            r@.len() == flat_dir(self.full_directory_index@).len(),
            forall|j: int|
                0 <= j < r@.len() ==> ({
                    let f = flat_dir(self.full_directory_index@)[j];
                    &&& (#[trigger] r@[j]).0@ == f.0
                    &&& r@[j].1@ == f.1
                    &&& r@[j].2 == f.2
                }),
    {
        Self::flatten_dir(&self.full_directory_index)
    }

    fn flatten_dir(d: &Vec<(String, Vec<(String, RawPakEntryLocation)>)>) -> (r: Vec<
        (String, String, PakEntryLocation),
    >)
        ensures
            r@.len() == flat_dir(d@).len(),
            forall|j: int|
                0 <= j < r@.len() ==> ({
                    let f = flat_dir(d@)[j];
                    &&& (#[trigger] r@[j]).0@ == f.0
                    &&& r@[j].1@ == f.1
                    &&& r@[j].2 == f.2
                }),
    {
        let mut out: Vec<(String, String, PakEntryLocation)> = Vec::new();
        let mut i: usize = 0;
        proof {
            assert(d@.take(0) =~= Seq::<(String, Vec<(String, RawPakEntryLocation)>)>::empty());
            assert(flat_dir(d@.take(0)) =~= Seq::<
                (Seq<char>, Seq<char>, PakEntryLocation),
            >::empty());
        }
        while i < d.len()
            invariant
                i <= d@.len(),
                out@.len() == flat_dir(d@.take(i as int)).len(),
                forall|j: int|
                    0 <= j < out@.len() ==> ({
                        let f = flat_dir(d@.take(i as int))[j];
                        &&& (#[trigger] out@[j]).0@ == f.0
                        &&& out@[j].1@ == f.1
                        &&& out@[j].2 == f.2
                    }),
            decreases d@.len() - i,
        {
            let ghost flat_before = flat_dir(d@.take(i as int));
            let inner_len = d[i].1.len();
            let mut j: usize = 0;
            proof {
                assert(d@[i as int].1@.take(0) =~= Seq::<(String, RawPakEntryLocation)>::empty());
                assert(flat_inner(d@[i as int].0@, d@[i as int].1@.take(0)) =~= Seq::<
                    (Seq<char>, Seq<char>, PakEntryLocation),
                >::empty());
            }
            while j < inner_len
                invariant
                    i < d@.len(),
                    j <= d@[i as int].1@.len(),
                    inner_len == d@[i as int].1@.len(),
                    flat_before == flat_dir(d@.take(i as int)),
                    out@.len() == flat_before.len() + flat_inner(
                        d@[i as int].0@,
                        d@[i as int].1@.take(j as int),
                    ).len(),
                    forall|k: int|
                        0 <= k < flat_before.len() ==> ({
                            let f = flat_before[k];
                            &&& (#[trigger] out@[k]).0@ == f.0
                            &&& out@[k].1@ == f.1
                            &&& out@[k].2 == f.2
                        }),
                    forall|k: int|
                        flat_before.len() <= k < out@.len() ==> ({
                            let f = flat_inner(
                                d@[i as int].0@,
                                d@[i as int].1@.take(j as int),
                            )[k - flat_before.len()];
                            &&& (#[trigger] out@[k]).0@ == f.0
                            &&& out@[k].1@ == f.1
                            &&& out@[k].2 == f.2
                        }),
                decreases d@[i as int].1@.len() - j,
            {
                let dir = d[i].0.clone();
                let name = d[i].1[j].0.clone();
                out.push((dir, name, d[i].1[j].1.get()));
                proof {
                    lemma_flat_inner_push(
                        d@[i as int].0@,
                        d@[i as int].1@.take(j as int),
                        d@[i as int].1@[j as int],
                    );
                    assert(d@[i as int].1@.take(j + 1) =~= d@[i as int].1@.take(j as int).push(
                        d@[i as int].1@[j as int],
                    ));
                }
                j = j + 1;
            }
            proof {
                assert(d@[i as int].1@.take(inner_len as int) =~= d@[i as int].1@);
                lemma_flat_dir_push(d@.take(i as int), d@[i as int]);
                assert(d@.take(i + 1) =~= d@.take(i as int).push(d@[i as int]));
            }
            i = i + 1;
        }
        proof {
            assert(d@.take(d@.len() as int) =~= d@);
        }
        out
    }
}

// ---------------------------------------------------------------------------
// V2 wire form
// ---------------------------------------------------------------------------
pub open spec fn enc_phi_pairs(m: Seq<(u64, RawPakEntryLocation)>) -> Seq<u8>
    decreases m.len(),
{
    if m.len() == 0 {
        Seq::empty()
    } else {
        enc_u64(m[0].0) + enc_i32(m[0].1.spec_raw()) + enc_phi_pairs(m.drop_first())
    }
}

/// The path-hash map: u32 count, then key/value pairs in ascending key order.
pub open spec fn enc_phi_map(m: Seq<(u64, RawPakEntryLocation)>) -> Seq<u8> {
    enc_u32(m.len() as u32) + enc_phi_pairs(m)
}

pub open spec fn enc_name_pairs(m: Seq<(String, RawPakEntryLocation)>) -> Seq<u8>
    decreases m.len(),
{
    if m.len() == 0 {
        Seq::empty()
    } else {
        enc_str(m[0].0@) + enc_i32(m[0].1.spec_raw()) + enc_name_pairs(m.drop_first())
    }
}

pub open spec fn enc_inner_map(m: Seq<(String, RawPakEntryLocation)>) -> Seq<u8> {
    enc_u32(m.len() as u32) + enc_name_pairs(m)
}

pub open spec fn enc_dir_pairs(d: Seq<(String, Vec<(String, RawPakEntryLocation)>)>) -> Seq<u8>
    decreases d.len(),
{
    if d.len() == 0 {
        Seq::empty()
    } else {
        enc_str(d[0].0@) + enc_inner_map(d[0].1@) + enc_dir_pairs(d.drop_first())
    }
}

/// A directory tree: u32 count, then directory/submap pairs in key order.
pub open spec fn enc_dir_map(d: Seq<(String, Vec<(String, RawPakEntryLocation)>)>) -> Seq<u8> {
    enc_u32(d.len() as u32) + enc_dir_pairs(d)
}

pub open spec fn enc_files(files: Seq<PakEntry>, v: PakVersion) -> Seq<u8>
    decreases files.len(),
{
    if files.len() == 0 {
        Seq::empty()
    } else {
        enc_entry(files[0]@, v) + enc_files(files.drop_first(), v)
    }
}

/// The top-level index region of a V2 index, with the secondary-region
/// triples exactly as the fields hold them.
pub open spec fn enc_v2_main(x: PakIndexV2, v: PakVersion) -> Seq<u8> {
    enc_str(x.mount_point@) + enc_u32(x.num_entries) + enc_u64(x.path_hash_seed) + enc_b32(
        x.has_path_hash_index,
    ) + (if x.has_path_hash_index {
        enc_i64(x.path_hash_index_offset) + enc_i64(x.path_hash_index_size)
            + x.path_hash_index_hash@
    } else {
        Seq::<u8>::empty()
    }) + enc_b32(x.has_full_directory_index) + (if x.has_full_directory_index {
        enc_i64(x.full_directory_index_offset) + enc_i64(x.full_directory_index_size)
            + x.full_directory_index_hash@
    } else {
        Seq::<u8>::empty()
    }) + enc_u32(x.encoded_pak_entries@.len() as u32) + x.encoded_pak_entries@ + enc_u32(
        x.files@.len() as u32,
    ) + enc_files(x.files@, v)
}

/// The PathHashIndex region: the hash map, then the pruned directory tree.
pub open spec fn enc_phi_region(x: PakIndexV2) -> Seq<u8> {
    enc_phi_map(x.path_hash_index@) + enc_dir_map(x.pruned_directory_index@)
}

/// The FullDirectoryIndex region.
pub open spec fn enc_fdi_region(x: PakIndexV2) -> Seq<u8> {
    enc_dir_map(x.full_directory_index@)
}

/// Everything the encoder needs representable: name lengths, counts and the
/// full-form entries.
pub open spec fn v2_encodable(x: PakIndexV2, v: PakVersion) -> bool {
    &&& str_fits(x.mount_point@)
    &&& x.encoded_pak_entries@.len() <= u32::MAX
    &&& x.files@.len() <= u32::MAX
    &&& x.path_hash_index@.len() <= u32::MAX
    &&& x.pruned_directory_index@.len() <= u32::MAX
    &&& x.full_directory_index@.len() <= u32::MAX
    &&& (forall|i: int|
        0 <= i < x.files@.len() ==> entry_encodable((#[trigger] x.files@[i])@, v))
    &&& (forall|i: int|
        0 <= i < x.pruned_directory_index@.len() ==> str_fits(
            (#[trigger] x.pruned_directory_index@[i]).0@,
        ) && x.pruned_directory_index@[i].1@.len() <= u32::MAX && (forall|j: int|
            0 <= j < x.pruned_directory_index@[i].1@.len() ==> str_fits(
                (#[trigger] x.pruned_directory_index@[i].1@[j]).0@,
            )))
    &&& (forall|i: int|
        0 <= i < x.full_directory_index@.len() ==> str_fits(
            (#[trigger] x.full_directory_index@[i]).0@,
        ) && x.full_directory_index@[i].1@.len() <= u32::MAX && (forall|j: int|
            0 <= j < x.full_directory_index@[i].1@.len() ==> str_fits(
                (#[trigger] x.full_directory_index@[i].1@[j]).0@,
            )))
}

proof fn lemma_enc_phi_pairs_push(m: Seq<(u64, RawPakEntryLocation)>, p: (u64, RawPakEntryLocation))
    ensures
        enc_phi_pairs(m.push(p)) == enc_phi_pairs(m) + enc_u64(p.0) + enc_i32(p.1.spec_raw()),
    decreases m.len(),
{
    if m.len() == 0 {
        assert(m.push(p)[0] == p);
        assert(m =~= Seq::<(u64, RawPakEntryLocation)>::empty());
        assert(m.push(p).drop_first() =~= m);
        assert(enc_phi_pairs(m) =~= Seq::<u8>::empty());
        assert(enc_phi_pairs(m.push(p)) =~= enc_phi_pairs(m) + enc_u64(p.0) + enc_i32(
            p.1.spec_raw(),
        ));
    } else {
        assert(m.push(p).drop_first() =~= m.drop_first().push(p));
        assert(m.push(p)[0] == m[0]);
        lemma_enc_phi_pairs_push(m.drop_first(), p);
        assert(enc_phi_pairs(m.push(p)) =~= enc_phi_pairs(m) + enc_u64(p.0) + enc_i32(
            p.1.spec_raw(),
        ));
    }
}

proof fn lemma_enc_name_pairs_push(
    m: Seq<(String, RawPakEntryLocation)>,
    p: (String, RawPakEntryLocation),
)
    ensures
        enc_name_pairs(m.push(p)) == enc_name_pairs(m) + enc_str(p.0@) + enc_i32(p.1.spec_raw()),
    decreases m.len(),
{
    if m.len() == 0 {
        assert(m.push(p)[0] == p);
        assert(m =~= Seq::<(String, RawPakEntryLocation)>::empty());
        assert(m.push(p).drop_first() =~= m);
        assert(enc_name_pairs(m) =~= Seq::<u8>::empty());
        assert(enc_name_pairs(m.push(p)) =~= enc_name_pairs(m) + enc_str(p.0@) + enc_i32(
            p.1.spec_raw(),
        ));
    } else {
        assert(m.push(p).drop_first() =~= m.drop_first().push(p));
        assert(m.push(p)[0] == m[0]);
        lemma_enc_name_pairs_push(m.drop_first(), p);
        assert(enc_name_pairs(m.push(p)) =~= enc_name_pairs(m) + enc_str(p.0@) + enc_i32(
            p.1.spec_raw(),
        ));
    }
}

proof fn lemma_enc_dir_pairs_push(
    d: Seq<(String, Vec<(String, RawPakEntryLocation)>)>,
    p: (String, Vec<(String, RawPakEntryLocation)>),
)
    ensures
        enc_dir_pairs(d.push(p)) == enc_dir_pairs(d) + enc_str(p.0@) + enc_inner_map(p.1@),
    decreases d.len(),
{
    if d.len() == 0 {
        assert(d.push(p)[0] == p);
        assert(d =~= Seq::<(String, Vec<(String, RawPakEntryLocation)>)>::empty());
        assert(d.push(p).drop_first() =~= d);
        assert(enc_dir_pairs(d) =~= Seq::<u8>::empty());
        assert(enc_dir_pairs(d.push(p)) =~= enc_dir_pairs(d) + enc_str(p.0@) + enc_inner_map(
            p.1@,
        ));
    } else {
        assert(d.push(p).drop_first() =~= d.drop_first().push(p));
        assert(d.push(p)[0] == d[0]);
        lemma_enc_dir_pairs_push(d.drop_first(), p);
        assert(enc_dir_pairs(d.push(p)) =~= enc_dir_pairs(d) + enc_str(p.0@) + enc_inner_map(
            p.1@,
        ));
    }
}

proof fn lemma_enc_files_push(files: Seq<PakEntry>, p: PakEntry, v: PakVersion)
    ensures
        enc_files(files.push(p), v) == enc_files(files, v) + enc_entry(p@, v),
    decreases files.len(),
{
    if files.len() == 0 {
        assert(files.push(p)[0] == p);
        assert(files =~= Seq::<PakEntry>::empty());
        assert(files.push(p).drop_first() =~= files);
        assert(enc_files(files, v) =~= Seq::<u8>::empty());
        assert(enc_files(files.push(p), v) =~= enc_files(files, v) + enc_entry(p@, v));
    } else {
        assert(files.push(p).drop_first() =~= files.drop_first().push(p));
        assert(files.push(p)[0] == files[0]);
        lemma_enc_files_push(files.drop_first(), p, v);
        assert(enc_files(files.push(p), v) =~= enc_files(files, v) + enc_entry(p@, v));
    }
}

/// Writes the path-hash map in ascending key order.
fn ser_phi_map(w: &mut ArchiveWriter, m: &Vec<(u64, RawPakEntryLocation)>) -> (r: Result<
    (),
    PakError,
>)
    ensures
        match r {
            Ok(()) => m@.len() <= u32::MAX && final(w).data@ == old(w).data@ + enc_phi_map(m@),
            Err(e) => e == PakError::InvalidInput && m@.len() > u32::MAX && final(w).data@ == old(
                w,
            ).data@,
        },
{
    if m.len() > u32::MAX as usize {
        return Err(PakError::InvalidInput);
    }
    let ghost b0 = w.data@;
    w.ser_u32(m.len() as u32);
    let ghost bmid = w.data@;
    let mut i: usize = 0;
    while i < m.len()
        invariant
            i <= m@.len(),
            w.data@ =~= bmid + enc_phi_pairs(m@.take(i as int)),
        decreases m@.len() - i,
    {
        let (k, loc) = m[i];
        w.ser_u64(k);
        w.ser_i32(loc.raw());
        proof {
            lemma_enc_phi_pairs_push(m@.take(i as int), m@[i as int]);
            assert(m@.take(i + 1) =~= m@.take(i as int).push(m@[i as int]));
            assert(w.data@ =~= bmid + enc_phi_pairs(m@.take(i + 1)));
        }
        i = i + 1;
    }
    proof {
        assert(m@.take(m@.len() as int) =~= m@);
        assert(w.data@ =~= b0 + enc_phi_map(m@));
    }
    Ok(())
}

/// Writes one directory tree in ascending key order at both levels.
fn ser_dir_map(w: &mut ArchiveWriter, d: &Vec<(String, Vec<(String, RawPakEntryLocation)>)>) -> (r:
    Result<(), PakError>)
    ensures
        match r {
            Ok(()) => final(w).data@ == old(w).data@ + enc_dir_map(d@) && dir_ser_ok(d@),
            Err(e) => e == PakError::InvalidInput && !dir_ser_ok(d@),
        },
{
    if d.len() > u32::MAX as usize {
        return Err(PakError::InvalidInput);
    }
    let ghost b0 = w.data@;
    w.ser_u32(d.len() as u32);
    let ghost bmid = w.data@;
    let mut i: usize = 0;
    while i < d.len()
        invariant
            i <= d@.len(),
            d@.len() <= u32::MAX,
            w.data@ =~= bmid + enc_dir_pairs(d@.take(i as int)),
            forall|k: int|
                0 <= k < i as int ==> str_fits((#[trigger] d@[k]).0@) && d@[k].1@.len()
                    <= u32::MAX && (forall|j: int|
                    0 <= j < d@[k].1@.len() ==> str_fits((#[trigger] d@[k].1@[j]).0@)),
        decreases d@.len() - i,
    {
        let ghost before = w.data@;
        match w.ser_str(d[i].0.as_str()) {
            Ok(()) => (),
            Err(e) => {
                proof {
                    assert(!str_fits(d@[i as int].0@));
                }
                return Err(e)
            },
        }
        let inner = &d[i].1;
        if inner.len() > u32::MAX as usize {
            return Err(PakError::InvalidInput);
        }
        w.ser_u32(inner.len() as u32);
        let ghost binner = w.data@;
        let mut j: usize = 0;
        while j < inner.len()
            invariant
                j <= inner@.len(),
                inner@ == d@[i as int].1@,
                i < d@.len(),
                w.data@ =~= binner + enc_name_pairs(inner@.take(j as int)),
                forall|k: int| 0 <= k < j as int ==> str_fits((#[trigger] inner@[k]).0@),
            decreases inner@.len() - j,
        {
            match w.ser_str(inner[j].0.as_str()) {
                Ok(()) => (),
                Err(e) => {
                    proof {
                        assert(!str_fits(d@[i as int].1@[j as int].0@));
                    }
                    return Err(e)
                },
            }
            w.ser_i32(inner[j].1.raw());
            proof {
                lemma_enc_name_pairs_push(inner@.take(j as int), inner@[j as int]);
                assert(inner@.take(j + 1) =~= inner@.take(j as int).push(inner@[j as int]));
                assert(w.data@ =~= binner + enc_name_pairs(inner@.take(j + 1)));
            }
            j = j + 1;
        }
        proof {
            assert(inner@.take(inner@.len() as int) =~= inner@);
            assert(w.data@ =~= before + (enc_str(d@[i as int].0@) + enc_inner_map(
                d@[i as int].1@,
            )));
            lemma_enc_dir_pairs_push(d@.take(i as int), d@[i as int]);
            assert(d@.take(i + 1) =~= d@.take(i as int).push(d@[i as int]));
            assert(w.data@ =~= bmid + enc_dir_pairs(d@.take(i + 1)));
        }
        i = i + 1;
    }
    proof {
        assert(d@.take(d@.len() as int) =~= d@);
        assert(w.data@ =~= b0 + enc_dir_map(d@));
    }
    Ok(())
}

// ---------------------------------------------------------------------------
// V2 parsers
// ---------------------------------------------------------------------------
/// The mathematical value of the top-level V2 region.
#[verifier::ext_equal]
pub ghost struct V2MainV {
    pub mount: Seq<char>,
    pub num_entries: u32,
    pub seed: u64,
    pub has_phi: bool,
    pub phi_off: i64,
    pub phi_size: i64,
    pub phi_hash: Seq<u8>,
    pub has_fdi: bool,
    pub fdi_off: i64,
    pub fdi_size: i64,
    pub fdi_hash: Seq<u8>,
    pub blob: Seq<u8>,
    pub files: Seq<PakEntryV>,
}

pub open spec fn v2_main_view(x: PakIndexV2) -> V2MainV {
    V2MainV {
        mount: x.mount_point@,
        num_entries: x.num_entries,
        seed: x.path_hash_seed,
        has_phi: x.has_path_hash_index,
        phi_off: if x.has_path_hash_index {
            x.path_hash_index_offset
        } else {
            0
        },
        phi_size: if x.has_path_hash_index {
            x.path_hash_index_size
        } else {
            0
        },
        phi_hash: if x.has_path_hash_index {
            x.path_hash_index_hash@
        } else {
            Seq::new(20, |i: int| 0u8)
        },
        has_fdi: x.has_full_directory_index,
        fdi_off: if x.has_full_directory_index {
            x.full_directory_index_offset
        } else {
            0
        },
        fdi_size: if x.has_full_directory_index {
            x.full_directory_index_size
        } else {
            0
        },
        fdi_hash: if x.has_full_directory_index {
            x.full_directory_index_hash@
        } else {
            Seq::new(20, |i: int| 0u8)
        },
        blob: x.encoded_pak_entries@,
        files: x.files@.map(|i: int, e: PakEntry| e@),
    }
}

pub open spec fn phi_view(m: Seq<(u64, RawPakEntryLocation)>) -> Seq<(u64, i32)> {
    m.map(|i: int, p: (u64, RawPakEntryLocation)| (p.0, p.1.spec_raw()))
}

pub open spec fn inner_view(m: Seq<(String, RawPakEntryLocation)>) -> Seq<(Seq<char>, i32)> {
    m.map(|i: int, p: (String, RawPakEntryLocation)| (p.0@, p.1.spec_raw()))
}

pub open spec fn dir_view(d: Seq<(String, Vec<(String, RawPakEntryLocation)>)>) -> Seq<
    (Seq<char>, Seq<(Seq<char>, i32)>),
> {
    d.map(
        |i: int, p: (String, Vec<(String, RawPakEntryLocation)>)| (p.0@, inner_view(p.1@)),
    )
}

pub open spec fn dec_phi_pairs(s: Seq<u8>, n: nat) -> Option<(Seq<(u64, i32)>, int)>
    decreases n,
{
    if n == 0 {
        Some((Seq::empty(), 0int))
    } else {
        match dec_u64(s) {
            None => None,
            Some((k, _)) => match dec_i32(s.skip(8)) {
                None => None,
                Some((raw, _)) => match dec_phi_pairs(s.skip(12), (n - 1) as nat) {
                    None => None,
                    Some((rest, p)) => Some((seq![(k, raw)] + rest, 12 + p)),
                },
            },
        }
    }
}

pub open spec fn dec_phi_map(s: Seq<u8>) -> Option<(Seq<(u64, i32)>, int)> {
    match dec_u32(s) {
        None => None,
        Some((n, _)) => match dec_phi_pairs(s.skip(4), n as nat) {
            None => None,
            Some((m, p)) => Some((m, 4 + p)),
        },
    }
}

pub open spec fn dec_name_pairs(s: Seq<u8>, n: nat) -> Option<(Seq<(Seq<char>, i32)>, int)>
    decreases n,
{
    if n == 0 {
        Some((Seq::empty(), 0int))
    } else {
        match dec_str(s) {
            None => None,
            Some((name, p1)) => match dec_i32(s.skip(p1)) {
                None => None,
                Some((raw, _)) => match dec_name_pairs(s.skip(p1 + 4), (n - 1) as nat) {
                    None => None,
                    Some((rest, p)) => Some((seq![(name, raw)] + rest, p1 + 4 + p)),
                },
            },
        }
    }
}

pub open spec fn dec_inner_map(s: Seq<u8>) -> Option<(Seq<(Seq<char>, i32)>, int)> {
    match dec_u32(s) {
        None => None,
        Some((n, _)) => match dec_name_pairs(s.skip(4), n as nat) {
            None => None,
            Some((m, p)) => Some((m, 4 + p)),
        },
    }
}

pub open spec fn dec_dir_pairs(s: Seq<u8>, n: nat) -> Option<
    (Seq<(Seq<char>, Seq<(Seq<char>, i32)>)>, int),
>
    decreases n,
{
    if n == 0 {
        Some((Seq::empty(), 0int))
    } else {
        match dec_str(s) {
            None => None,
            Some((name, p1)) => match dec_inner_map(s.skip(p1)) {
                None => None,
                Some((inner, p2)) => match dec_dir_pairs(s.skip(p1 + p2), (n - 1) as nat) {
                    None => None,
                    Some((rest, p)) => Some((seq![(name, inner)] + rest, p1 + p2 + p)),
                },
            },
        }
    }
}

pub open spec fn dec_dir_map(s: Seq<u8>) -> Option<(Seq<(Seq<char>, Seq<(Seq<char>, i32)>)>, int)> {
    match dec_u32(s) {
        None => None,
        Some((n, _)) => match dec_dir_pairs(s.skip(4), n as nat) {
            None => None,
            Some((m, p)) => Some((m, 4 + p)),
        },
    }
}

pub open spec fn dec_files_list(s: Seq<u8>, n: nat, v: PakVersion) -> Option<(Seq<PakEntryV>, int)>
    decreases n,
{
    if n == 0 {
        Some((Seq::empty(), 0int))
    } else {
        match dec_entry(s, v) {
            None => None,
            Some((e, p1)) => match dec_files_list(s.skip(p1), (n - 1) as nat, v) {
                None => None,
                Some((rest, p)) => Some((seq![e] + rest, p1 + p)),
            },
        }
    }
}

/// Parses the top-level V2 region.
pub open spec fn dec_v2_main(s: Seq<u8>, v: PakVersion) -> Option<(V2MainV, int)> {
    match dec_str(s) {
        None => None,
        Some((mount, p0)) => match dec_u32(s.skip(p0)) {
            None => None,
            Some((num, _)) => match dec_u64(s.skip(p0 + 4)) {
                None => None,
                Some((seed, _)) => dec_v2_main_phi(s, v, mount, num, seed, p0 + 12),
            },
        },
    }
}

pub open spec fn dec_v2_main_phi(
    s: Seq<u8>,
    v: PakVersion,
    mount: Seq<char>,
    num: u32,
    seed: u64,
    p: int,
) -> Option<(V2MainV, int)> {
    match dec_b32(s.skip(p)) {
        None => None,
        Some((has_phi, _)) => {
            let q = if has_phi {
                p + 4 + 36
            } else {
                p + 4
            };
            if has_phi && s.len() < q {
                None
            } else {
                let phi_off = if has_phi {
                    dec_i64(s.skip(p + 4))->Some_0.0
                } else {
                    0i64
                };
                let phi_size = if has_phi {
                    dec_i64(s.skip(p + 12))->Some_0.0
                } else {
                    0i64
                };
                let phi_hash = if has_phi {
                    s.subrange(p + 20, p + 40)
                } else {
                    Seq::new(20, |i: int| 0u8)
                };
                dec_v2_main_fdi(s, v, mount, num, seed, has_phi, phi_off, phi_size, phi_hash, q)
            }
        },
    }
}

pub open spec fn dec_v2_main_fdi(
    s: Seq<u8>,
    v: PakVersion,
    mount: Seq<char>,
    num: u32,
    seed: u64,
    has_phi: bool,
    phi_off: i64,
    phi_size: i64,
    phi_hash: Seq<u8>,
    p: int,
) -> Option<(V2MainV, int)> {
    match dec_b32(s.skip(p)) {
        None => None,
        Some((has_fdi, _)) => {
            let q = if has_fdi {
                p + 4 + 36
            } else {
                p + 4
            };
            if has_fdi && s.len() < q {
                None
            } else {
                let fdi_off = if has_fdi {
                    dec_i64(s.skip(p + 4))->Some_0.0
                } else {
                    0i64
                };
                let fdi_size = if has_fdi {
                    dec_i64(s.skip(p + 12))->Some_0.0
                } else {
                    0i64
                };
                let fdi_hash = if has_fdi {
                    s.subrange(p + 20, p + 40)
                } else {
                    Seq::new(20, |i: int| 0u8)
                };
                dec_v2_main_tail(
                    s,
                    v,
                    mount,
                    num,
                    seed,
                    has_phi,
                    phi_off,
                    phi_size,
                    phi_hash,
                    has_fdi,
                    fdi_off,
                    fdi_size,
                    fdi_hash,
                    q,
                )
            }
        },
    }
}

pub open spec fn dec_v2_main_tail(
    s: Seq<u8>,
    v: PakVersion,
    mount: Seq<char>,
    num: u32,
    seed: u64,
    has_phi: bool,
    phi_off: i64,
    phi_size: i64,
    phi_hash: Seq<u8>,
    has_fdi: bool,
    fdi_off: i64,
    fdi_size: i64,
    fdi_hash: Seq<u8>,
    p: int,
) -> Option<(V2MainV, int)> {
    match dec_u32(s.skip(p)) {
        None => None,
        Some((blob_len, _)) => {
            if s.len() < p + 4 + blob_len {
                None
            } else {
                let blob = s.subrange(p + 4, p + 4 + blob_len);
                let q = p + 4 + blob_len;
                match dec_u32(s.skip(q)) {
                    None => None,
                    Some((nfiles, _)) => match dec_files_list(s.skip(q + 4), nfiles as nat, v) {
                        None => None,
                        Some((files, pf)) => Some(
                            (
                                V2MainV {
                                    mount,
                                    num_entries: num,
                                    seed,
                                    has_phi,
                                    phi_off,
                                    phi_size,
                                    phi_hash,
                                    has_fdi,
                                    fdi_off,
                                    fdi_size,
                                    fdi_hash,
                                    blob,
                                    files,
                                },
                                q + 4 + pf,
                            ),
                        ),
                    },
                }
            }
        },
    }
}

// ---------------------------------------------------------------------------
// V2 round trip
// ---------------------------------------------------------------------------
proof fn lemma_dec_enc_phi_pairs(m: Seq<(u64, RawPakEntryLocation)>, rest: Seq<u8>)
    ensures
        dec_phi_pairs(enc_phi_pairs(m) + rest, m.len() as nat) == Some(
            (phi_view(m), enc_phi_pairs(m).len() as int),
        ),
    decreases m.len(),
{
    vstd::bytes::lemma_auto_spec_u32_to_from_le_bytes();
    vstd::bytes::lemma_auto_spec_u64_to_from_le_bytes();
    if m.len() == 0 {
        assert(enc_phi_pairs(m) + rest =~= rest);
        assert(phi_view(m) =~= Seq::<(u64, i32)>::empty());
    } else {
        let p = m[0];
        let s = enc_phi_pairs(m) + rest;
        lemma_dec_u64(p.0, enc_i32(p.1.spec_raw()) + enc_phi_pairs(m.drop_first()) + rest);
        assert(s =~= enc_u64(p.0) + (enc_i32(p.1.spec_raw()) + enc_phi_pairs(m.drop_first())
            + rest));
        crate::archive::lemma_dec_i32(p.1.spec_raw(), enc_phi_pairs(m.drop_first()) + rest);
        assert(s.skip(8) =~= enc_i32(p.1.spec_raw()) + (enc_phi_pairs(m.drop_first()) + rest));
        lemma_dec_enc_phi_pairs(m.drop_first(), rest);
        assert(s.skip(12) =~= enc_phi_pairs(m.drop_first()) + rest);
        assert(phi_view(m) =~= seq![(p.0, p.1.spec_raw())] + phi_view(m.drop_first()));
    }
}

/// The path-hash map round-trips.
pub proof fn lemma_dec_enc_phi_map(m: Seq<(u64, RawPakEntryLocation)>, rest: Seq<u8>)
    requires
        m.len() <= u32::MAX,
    ensures
        dec_phi_map(enc_phi_map(m) + rest) == Some((phi_view(m), enc_phi_map(m).len() as int)),
{
    vstd::bytes::lemma_auto_spec_u32_to_from_le_bytes();
    let s = enc_phi_map(m) + rest;
    lemma_dec_u32(m.len() as u32, enc_phi_pairs(m) + rest);
    assert(s =~= enc_u32(m.len() as u32) + (enc_phi_pairs(m) + rest));
    lemma_dec_enc_phi_pairs(m, rest);
    assert(s.skip(4) =~= enc_phi_pairs(m) + rest);
    assert((m.len() as u32) as nat == m.len());
}

proof fn lemma_dec_enc_name_pairs(m: Seq<(String, RawPakEntryLocation)>, rest: Seq<u8>)
    requires
        forall|i: int| 0 <= i < m.len() ==> str_fits((#[trigger] m[i]).0@),
    ensures
        dec_name_pairs(enc_name_pairs(m) + rest, m.len() as nat) == Some(
            (inner_view(m), enc_name_pairs(m).len() as int),
        ),
    decreases m.len(),
{
    vstd::bytes::lemma_auto_spec_u32_to_from_le_bytes();
    if m.len() == 0 {
        assert(enc_name_pairs(m) + rest =~= rest);
        assert(inner_view(m) =~= Seq::<(Seq<char>, i32)>::empty());
    } else {
        let p = m[0];
        let s = enc_name_pairs(m) + rest;
        crate::archive::lemma_dec_str(p.0@, enc_i32(p.1.spec_raw()) + enc_name_pairs(
            m.drop_first(),
        ) + rest);
        assert(s =~= enc_str(p.0@) + (enc_i32(p.1.spec_raw()) + enc_name_pairs(m.drop_first())
            + rest));
        let p1 = enc_str(p.0@).len() as int;
        crate::archive::lemma_dec_i32(p.1.spec_raw(), enc_name_pairs(m.drop_first()) + rest);
        assert(s.skip(p1) =~= enc_i32(p.1.spec_raw()) + (enc_name_pairs(m.drop_first()) + rest));
        lemma_dec_enc_name_pairs(m.drop_first(), rest);
        assert(s.skip(p1 + 4) =~= enc_name_pairs(m.drop_first()) + rest);
        assert(inner_view(m) =~= seq![(p.0@, p.1.spec_raw())] + inner_view(m.drop_first()));
    }
}

/// An inner name map round-trips.
pub proof fn lemma_dec_enc_inner_map(m: Seq<(String, RawPakEntryLocation)>, rest: Seq<u8>)
    requires
        m.len() <= u32::MAX,
        forall|i: int| 0 <= i < m.len() ==> str_fits((#[trigger] m[i]).0@),
    ensures
        dec_inner_map(enc_inner_map(m) + rest) == Some(
            (inner_view(m), enc_inner_map(m).len() as int),
        ),
{
    vstd::bytes::lemma_auto_spec_u32_to_from_le_bytes();
    let s = enc_inner_map(m) + rest;
    lemma_dec_u32(m.len() as u32, enc_name_pairs(m) + rest);
    assert(s =~= enc_u32(m.len() as u32) + (enc_name_pairs(m) + rest));
    lemma_dec_enc_name_pairs(m, rest);
    assert(s.skip(4) =~= enc_name_pairs(m) + rest);
    assert((m.len() as u32) as nat == m.len());
}

#[verifier::rlimit(100)]
#[verifier::spinoff_prover]
proof fn lemma_dec_enc_dir_pairs(
    d: Seq<(String, Vec<(String, RawPakEntryLocation)>)>,
    rest: Seq<u8>,
)
    requires
        forall|i: int|
            0 <= i < d.len() ==> str_fits((#[trigger] d[i]).0@) && d[i].1@.len() <= u32::MAX && (
            forall|j: int| 0 <= j < d[i].1@.len() ==> str_fits((#[trigger] d[i].1@[j]).0@)),
    ensures
        dec_dir_pairs(enc_dir_pairs(d) + rest, d.len() as nat) == Some(
            (dir_view(d), enc_dir_pairs(d).len() as int),
        ),
    decreases d.len(),
{
    if d.len() == 0 {
        assert(enc_dir_pairs(d) + rest =~= rest);
        assert(dir_view(d) =~= Seq::<(Seq<char>, Seq<(Seq<char>, i32)>)>::empty());
    } else {
        let p = d[0];
        let s = enc_dir_pairs(d) + rest;
        crate::archive::lemma_dec_str(p.0@, enc_inner_map(p.1@) + enc_dir_pairs(d.drop_first())
            + rest);
        assert(s =~= enc_str(p.0@) + (enc_inner_map(p.1@) + enc_dir_pairs(d.drop_first())
            + rest));
        let p1 = enc_str(p.0@).len() as int;
        lemma_dec_enc_inner_map(p.1@, enc_dir_pairs(d.drop_first()) + rest);
        assert(s.skip(p1) =~= enc_inner_map(p.1@) + (enc_dir_pairs(d.drop_first()) + rest));
        let p2 = enc_inner_map(p.1@).len() as int;
        lemma_dec_enc_dir_pairs(d.drop_first(), rest);
        assert(s.skip(p1 + p2) =~= enc_dir_pairs(d.drop_first()) + rest);
        assert(dir_view(d) =~= seq![(p.0@, inner_view(p.1@))] + dir_view(d.drop_first()));
    }
}

/// A directory tree round-trips, directories, names and locations included.
pub proof fn lemma_dec_enc_dir_map(
    d: Seq<(String, Vec<(String, RawPakEntryLocation)>)>,
    rest: Seq<u8>,
)
    requires
        d.len() <= u32::MAX,
        forall|i: int|
            0 <= i < d.len() ==> str_fits((#[trigger] d[i]).0@) && d[i].1@.len() <= u32::MAX && (
            forall|j: int| 0 <= j < d[i].1@.len() ==> str_fits((#[trigger] d[i].1@[j]).0@)),
    ensures
        dec_dir_map(enc_dir_map(d) + rest) == Some((dir_view(d), enc_dir_map(d).len() as int)),
{
    vstd::bytes::lemma_auto_spec_u32_to_from_le_bytes();
    let s = enc_dir_map(d) + rest;
    lemma_dec_u32(d.len() as u32, enc_dir_pairs(d) + rest);
    assert(s =~= enc_u32(d.len() as u32) + (enc_dir_pairs(d) + rest));
    lemma_dec_enc_dir_pairs(d, rest);
    assert(s.skip(4) =~= enc_dir_pairs(d) + rest);
    assert((d.len() as u32) as nat == d.len());
}

proof fn lemma_dec_enc_files(files: Seq<PakEntry>, v: PakVersion, rest: Seq<u8>)
    requires
        forall|i: int|
            0 <= i < files.len() ==> entry_encodable((#[trigger] files[i])@, v)
                && crate::pakentry::entry_lossless(files[i]@, v),
    ensures
        dec_files_list(enc_files(files, v) + rest, files.len() as nat, v) == Some(
            (files.map(|i: int, e: PakEntry| e@), enc_files(files, v).len() as int),
        ),
    decreases files.len(),
{
    if files.len() == 0 {
        assert(enc_files(files, v) + rest =~= rest);
        assert(files.map(|i: int, e: PakEntry| e@) =~= Seq::<PakEntryV>::empty());
    } else {
        lemma_dec_enc_files(files.drop_first(), v, rest);
        lemma_files_cons(files, v, rest);
    }
}

/// One-entry step of the full-form list round trip.
#[verifier::rlimit(100)]
#[verifier::spinoff_prover]
proof fn lemma_files_cons(files: Seq<PakEntry>, v: PakVersion, rest: Seq<u8>)
    requires
        files.len() > 0,
        entry_encodable(files[0]@, v),
        crate::pakentry::entry_lossless(files[0]@, v),
        dec_files_list(
            enc_files(files.drop_first(), v) + rest,
            (files.len() - 1) as nat,
            v,
        ) == Some(
            (
                files.drop_first().map(|i: int, e: PakEntry| e@),
                enc_files(files.drop_first(), v).len() as int,
            ),
        ),
    ensures
        dec_files_list(enc_files(files, v) + rest, files.len() as nat, v) == Some(
            (files.map(|i: int, e: PakEntry| e@), enc_files(files, v).len() as int),
        ),
{
    let p = files[0];
    let s = enc_files(files, v) + rest;
    crate::pakentry::lemma_dec_enc_entry(p@, v, enc_files(files.drop_first(), v) + rest);
    assert(s =~= enc_entry(p@, v) + (enc_files(files.drop_first(), v) + rest));
    let p1 = enc_entry(p@, v).len() as int;
    assert(s.skip(p1) =~= enc_files(files.drop_first(), v) + rest);
    assert(files.map(|i: int, e: PakEntry| e@) =~= seq![p@] + files.drop_first().map(
        |i: int, e: PakEntry| e@,
    ));
}

/// The top-level V2 region round-trips: the mount point, the counts, the
/// secondary-region triples, the compact blob and the full-form entries all
/// come back exactly.
#[verifier::rlimit(100)]
#[verifier::spinoff_prover]
pub proof fn lemma_dec_enc_v2_main(x: PakIndexV2, v: PakVersion, rest: Seq<u8>)
    requires
        v2_encodable(x, v),
        forall|i: int|
            0 <= i < x.files@.len() ==> crate::pakentry::entry_lossless(
                (#[trigger] x.files@[i])@,
                v,
            ),
    ensures
        dec_v2_main(enc_v2_main(x, v) + rest, v) == Some(
            (v2_main_view(x), enc_v2_main(x, v).len() as int),
        ),
{
    vstd::bytes::lemma_auto_spec_u32_to_from_le_bytes();
    vstd::bytes::lemma_auto_spec_u64_to_from_le_bytes();
    lemma_v2_main_fields(x, v, rest);
    lemma_v2_tail_fields(x, v, rest);
    let s = enc_v2_main(x, v) + rest;
    let p3 = v2_p3(x);
    let t = v2_tail3(x, v, rest);
    let blob = x.encoded_pak_entries@;
    assert(s.skip(p3) == t);
    assert(dec_u32(s.skip(p3)) == Some((blob.len() as u32, 4int)));
    assert(s.subrange(p3 + 4, p3 + 4 + blob.len() as int) =~= t.subrange(
        4,
        4 + blob.len() as int,
    ));
    assert(s.skip(p3 + 4 + blob.len() as int) =~= t.skip(4 + blob.len() as int));
    assert(s.skip(p3 + 8 + blob.len() as int) =~= t.skip(8 + blob.len() as int));
    assert((blob.len() as u32) as int == blob.len() as int);
    assert((x.files@.len() as u32) as nat == x.files@.len());
    let parsed = dec_v2_main(s, v);
    assert(parsed is Some);
    assert(parsed->Some_0.0 =~= v2_main_view(x));
    assert(parsed->Some_0.1 == enc_v2_main(x, v).len() as int);
}

/// The bytes after the directory-triple header: blob and full-form entries.
pub open spec fn v2_tail3(x: PakIndexV2, v: PakVersion, rest: Seq<u8>) -> Seq<u8> {
    enc_u32(x.encoded_pak_entries@.len() as u32) + x.encoded_pak_entries@ + enc_u32(
        x.files@.len() as u32,
    ) + enc_files(x.files@, v) + rest
}

/// Positions of the fixed fields of an encoded top-level V2 region.
pub open spec fn v2_p3(x: PakIndexV2) -> int {
    let p1: int = enc_str(x.mount_point@).len() as int + 12;
    let p2 = if x.has_path_hash_index {
        p1 + 40
    } else {
        p1 + 4
    };
    if x.has_full_directory_index {
        p2 + 40
    } else {
        p2 + 4
    }
}

/// Field-level parse facts for an encoded top-level V2 region.
#[verifier::rlimit(100)]
#[verifier::spinoff_prover]
proof fn lemma_v2_main_fields(x: PakIndexV2, v: PakVersion, rest: Seq<u8>)
    requires
        v2_encodable(x, v),
    ensures
        ({
            let s = enc_v2_main(x, v) + rest;
            let p0 = enc_str(x.mount_point@).len() as int;
            let p1 = p0 + 12;
            let p2 = if x.has_path_hash_index {
                p1 + 40
            } else {
                p1 + 4
            };
            &&& dec_str(s) == Some((x.mount_point@, p0))
            &&& dec_u32(s.skip(p0)) == Some((x.num_entries, 4int))
            &&& dec_u64(s.skip(p0 + 4)) == Some((x.path_hash_seed, 8int))
            &&& dec_b32(s.skip(p1)) == Some((x.has_path_hash_index, 4int))
            &&& (x.has_path_hash_index ==> dec_i64(s.skip(p1 + 4)) == Some(
                (x.path_hash_index_offset, 8int),
            ) && dec_i64(s.skip(p1 + 12)) == Some((x.path_hash_index_size, 8int)) && s.subrange(
                p1 + 20,
                p1 + 40,
            ) == x.path_hash_index_hash@)
            &&& dec_b32(s.skip(p2)) == Some((x.has_full_directory_index, 4int))
            &&& (x.has_full_directory_index ==> dec_i64(s.skip(p2 + 4)) == Some(
                (x.full_directory_index_offset, 8int),
            ) && dec_i64(s.skip(p2 + 12)) == Some((x.full_directory_index_size, 8int))
                && s.subrange(p2 + 20, p2 + 40) == x.full_directory_index_hash@)
            &&& s.skip(v2_p3(x)) == v2_tail3(x, v, rest)
            &&& enc_v2_main(x, v).len() == v2_p3(x) + 8 + x.encoded_pak_entries@.len()
                + enc_files(x.files@, v).len()
        }),
{
    vstd::bytes::lemma_auto_spec_u32_to_from_le_bytes();
    vstd::bytes::lemma_auto_spec_u64_to_from_le_bytes();
    let s = enc_v2_main(x, v) + rest;
    let phit: Seq<u8> = if x.has_path_hash_index {
        enc_i64(x.path_hash_index_offset) + enc_i64(x.path_hash_index_size)
            + x.path_hash_index_hash@
    } else {
        Seq::<u8>::empty()
    };
    let fdit: Seq<u8> = if x.has_full_directory_index {
        enc_i64(x.full_directory_index_offset) + enc_i64(x.full_directory_index_size)
            + x.full_directory_index_hash@
    } else {
        Seq::<u8>::empty()
    };
    let t3 = v2_tail3(x, v, Seq::<u8>::empty()).drop_last();
    let tail3 = enc_u32(x.encoded_pak_entries@.len() as u32) + (x.encoded_pak_entries@ + (enc_u32(
        x.files@.len() as u32,
    ) + (enc_files(x.files@, v) + rest)));
    let t2 = enc_b32(x.has_full_directory_index) + fdit + tail3;
    let t1 = enc_b32(x.has_path_hash_index) + phit + t2;
    let t0 = enc_u32(x.num_entries) + enc_u64(x.path_hash_seed) + t1;
    crate::archive::lemma_dec_str(x.mount_point@, t0);
    assert(s =~= enc_str(x.mount_point@) + t0);
    let p0 = enc_str(x.mount_point@).len() as int;
    lemma_dec_u32(x.num_entries, enc_u64(x.path_hash_seed) + t1);
    assert(s.skip(p0) =~= enc_u32(x.num_entries) + (enc_u64(x.path_hash_seed) + t1));
    lemma_dec_u64(x.path_hash_seed, t1);
    assert(s.skip(p0 + 4) =~= enc_u64(x.path_hash_seed) + t1);
    crate::archive::lemma_dec_b32(x.has_path_hash_index, phit + t2);
    assert(s.skip(p0 + 12) =~= enc_b32(x.has_path_hash_index) + (phit + t2));
    let p1 = p0 + 12;
    if x.has_path_hash_index {
        crate::archive::lemma_dec_i64(x.path_hash_index_offset, enc_i64(x.path_hash_index_size)
            + x.path_hash_index_hash@ + t2);
        assert(s.skip(p1 + 4) =~= enc_i64(x.path_hash_index_offset) + (enc_i64(
            x.path_hash_index_size,
        ) + x.path_hash_index_hash@ + t2));
        crate::archive::lemma_dec_i64(x.path_hash_index_size, x.path_hash_index_hash@ + t2);
        assert(s.skip(p1 + 12) =~= enc_i64(x.path_hash_index_size) + (x.path_hash_index_hash@
            + t2));
        assert(s.subrange(p1 + 20, p1 + 40) =~= x.path_hash_index_hash@);
    }
    let p2 = if x.has_path_hash_index {
        p1 + 40
    } else {
        p1 + 4
    };
    crate::archive::lemma_dec_b32(x.has_full_directory_index, fdit + tail3);
    assert(s.skip(p2) =~= enc_b32(x.has_full_directory_index) + (fdit + tail3));
    if x.has_full_directory_index {
        crate::archive::lemma_dec_i64(
            x.full_directory_index_offset,
            enc_i64(x.full_directory_index_size) + x.full_directory_index_hash@ + tail3,
        );
        assert(s.skip(p2 + 4) =~= enc_i64(x.full_directory_index_offset) + (enc_i64(
            x.full_directory_index_size,
        ) + x.full_directory_index_hash@ + tail3));
        crate::archive::lemma_dec_i64(x.full_directory_index_size, x.full_directory_index_hash@
            + tail3);
        assert(s.skip(p2 + 12) =~= enc_i64(x.full_directory_index_size) + (
        x.full_directory_index_hash@ + tail3));
        assert(s.subrange(p2 + 20, p2 + 40) =~= x.full_directory_index_hash@);
    }
    assert(s.skip(v2_p3(x)) =~= v2_tail3(x, v, rest));
}

/// Parse facts for the blob and file-list tail of the region.
#[verifier::rlimit(100)]
#[verifier::spinoff_prover]
proof fn lemma_v2_tail_fields(x: PakIndexV2, v: PakVersion, rest: Seq<u8>)
    requires
        v2_encodable(x, v),
        forall|i: int|
            0 <= i < x.files@.len() ==> crate::pakentry::entry_lossless(
                (#[trigger] x.files@[i])@,
                v,
            ),
    ensures
        ({
            let t = v2_tail3(x, v, rest);
            let blob = x.encoded_pak_entries@;
            &&& dec_u32(t) == Some((blob.len() as u32, 4int))
            &&& t.subrange(4, 4 + blob.len() as int) == blob
            &&& dec_u32(t.skip(4 + blob.len() as int)) == Some((x.files@.len() as u32, 4int))
            &&& dec_files_list(t.skip(8 + blob.len() as int), x.files@.len() as nat, v) == Some(
                (x.files@.map(|i: int, e: PakEntry| e@), enc_files(x.files@, v).len() as int),
            )
            &&& t.len() == 8 + blob.len() + enc_files(x.files@, v).len() + rest.len()
        }),
{
    vstd::bytes::lemma_auto_spec_u32_to_from_le_bytes();
    let t = v2_tail3(x, v, rest);
    let blob = x.encoded_pak_entries@;
    let ftail = enc_u32(x.files@.len() as u32) + enc_files(x.files@, v) + rest;
    lemma_dec_u32(blob.len() as u32, blob + ftail);
    assert(t =~= enc_u32(blob.len() as u32) + (blob + ftail));
    assert(t.subrange(4, 4 + blob.len() as int) =~= blob);
    lemma_dec_u32(x.files@.len() as u32, enc_files(x.files@, v) + rest);
    assert(t.skip(4 + blob.len() as int) =~= enc_u32(x.files@.len() as u32) + (enc_files(
        x.files@,
        v,
    ) + rest));
    lemma_dec_enc_files(x.files@, v, rest);
    assert(t.skip(8 + blob.len() as int) =~= enc_files(x.files@, v) + rest);
}


/// A directory tree every part of which fits its wire prefix.
pub open spec fn dir_ser_ok(d: Seq<(String, Vec<(String, RawPakEntryLocation)>)>) -> bool {
    &&& d.len() <= u32::MAX
    &&& forall|i: int|
        0 <= i < d.len() ==> str_fits((#[trigger] d[i]).0@) && d[i].1@.len() <= u32::MAX && (
        forall|j: int| 0 <= j < d[i].1@.len() ==> str_fits((#[trigger] d[i].1@[j]).0@))
}


/// What a successful V2 serialization guarantees: content preserved, the
/// three segments appended, and the secondary-region triples patched to the
/// laid-out offsets, sizes and SHA1 digests.
pub open spec fn v2_ser_post(
    x0: PakIndexV2,
    x1: PakIndexV2,
    version: PakVersion,
    w0: Seq<u8>,
    w1: Seq<u8>,
) -> bool {
    &&& x1.mount_point@ == x0.mount_point@
    &&& x1.num_entries == x0.num_entries
    &&& x1.path_hash_seed == x0.path_hash_seed
    &&& x1.files@ == x0.files@
    &&& x1.encoded_pak_entries@ == x0.encoded_pak_entries@
    &&& x1.decoded_pak_entries@ == x0.decoded_pak_entries@
    &&& x1.path_hash_index@ == x0.path_hash_index@
    &&& x1.pruned_directory_index@ == x0.pruned_directory_index@
    &&& x1.full_directory_index@ == x0.full_directory_index@
    &&& x1.has_path_hash_index == x0.has_path_hash_index
    &&& x1.has_full_directory_index == x0.has_full_directory_index
    &&& w1 == w0 + enc_v2_main(x1, version) + enc_phi_region_if(x1) + enc_fdi_region_if(x1)
    &&& (x1.has_path_hash_index ==> {
        &&& x1.path_hash_index_offset == w0.len() + enc_v2_main(x1, version).len()
        &&& x1.path_hash_index_size == enc_phi_region(x1).len()
        &&& x1.path_hash_index_hash@ == crate::crypto::sha1_of(enc_phi_region(x1))
    })
    &&& (x1.has_full_directory_index ==> {
        &&& x1.full_directory_index_offset == w0.len() + enc_v2_main(x1, version).len()
            + enc_phi_region_if(x1).len()
        &&& x1.full_directory_index_size == enc_fdi_region(x1).len()
        &&& x1.full_directory_index_hash@ == crate::crypto::sha1_of(enc_fdi_region(x1))
    })
    &&& v2_ser_ok(x0, version, w0.len() as int)
}

/// Everything the serializer needs: representable names, counts and entries,
/// and a total size whose region offsets fit an i64 when laid out at `base`.
pub open spec fn v2_ser_ok(x: PakIndexV2, version: PakVersion, base: int) -> bool {
    &&& str_fits(x.mount_point@)
    &&& x.encoded_pak_entries@.len() <= u32::MAX
    &&& x.files@.len() <= u32::MAX
    &&& (forall|i: int|
        0 <= i < x.files@.len() ==> entry_encodable((#[trigger] x.files@[i])@, version))
    &&& (x.has_path_hash_index ==> x.path_hash_index@.len() <= u32::MAX && dir_ser_ok(
        x.pruned_directory_index@,
    ))
    &&& (x.has_full_directory_index ==> dir_ser_ok(x.full_directory_index@))
    &&& base + enc_v2_main(x, version).len() + enc_phi_region_if(x).len() + enc_fdi_region_if(
        x,
    ).len() <= i64::MAX
}

/// Writes the count-prefixed full-form entry list.
fn ser_files(w: &mut ArchiveWriter, files: &Vec<PakEntry>, version: PakVersion) -> (r: Result<
    (),
    PakError,
>)
    ensures
        match r {
            Ok(()) => files@.len() <= u32::MAX && (forall|i: int|
                0 <= i < files@.len() ==> entry_encodable((#[trigger] files@[i])@, version))
                && final(w).data@ == old(w).data@ + enc_u32(files@.len() as u32) + enc_files(
                files@,
                version,
            ),
            Err(e) => e == PakError::InvalidInput && (files@.len() > u32::MAX || exists|i: int|
                0 <= i < files@.len() && !entry_encodable((#[trigger] files@[i])@, version)),
        },
{
    if files.len() > u32::MAX as usize {
        return Err(PakError::InvalidInput);
    }
    let ghost b0 = w.data@;
    w.ser_u32(files.len() as u32);
    let ghost bmid = w.data@;
    let mut i: usize = 0;
    while i < files.len()
        invariant
            i <= files@.len(),
            w.data@ =~= bmid + enc_files(files@.take(i as int), version),
            forall|j: int|
                0 <= j < i as int ==> entry_encodable((#[trigger] files@[j])@, version),
        decreases files@.len() - i,
    {
        match files[i].ser(w, version) {
            Ok(()) => (),
            Err(e) => {
                proof {
                    assert(!entry_encodable(files@[i as int]@, version));
                }
                return Err(e)
            },
        }
        proof {
            lemma_enc_files_push(files@.take(i as int), files@[i as int], version);
            assert(files@.take(i + 1) =~= files@.take(i as int).push(files@[i as int]));
            assert(w.data@ =~= bmid + enc_files(files@.take(i + 1), version));
        }
        i = i + 1;
    }
    proof {
        assert(files@.take(files@.len() as int) =~= files@);
    }
    Ok(())
}

/// The PathHashIndex region bytes, when the index carries one.
pub open spec fn enc_phi_region_if(x: PakIndexV2) -> Seq<u8> {
    if x.has_path_hash_index {
        enc_phi_region(x)
    } else {
        Seq::<u8>::empty()
    }
}

/// The FullDirectoryIndex region bytes, when the index carries one.
pub open spec fn enc_fdi_region_if(x: PakIndexV2) -> Seq<u8> {
    if x.has_full_directory_index {
        enc_fdi_region(x)
    } else {
        Seq::<u8>::empty()
    }
}

impl PakIndexV2 {
    /// Serializes the whole index at the writer's current position: the
    /// top-level region, then the PathHashIndex region, then the
    /// FullDirectoryIndex region. The secondary regions' absolute offsets,
    /// sizes and SHA1 digests are computed here and patched into the header.
    #[verifier::rlimit(100)]
    #[verifier::spinoff_prover]
    pub fn ser(&mut self, w: &mut ArchiveWriter, version: PakVersion) -> (r: Result<(), PakError>)
        requires
            version.spec_at_least(PakVersion::PathHashIndex),
        ensures
            match r {
                Ok(()) => v2_ser_post(
                    *old(self),
                    *final(self),
                    version,
                    old(w).data@,
                    final(w).data@,
                ),
                Err(e) => (e == PakError::InvalidInput) && final(w).data@ == old(w).data@
                    && !v2_ser_ok(*old(self), version, old(w).data@.len() as int) && *final(self)
                    == *old(self),
            },
    {
        let mount_bytes_len = self.mount_point.as_str().as_bytes().len();
        if mount_bytes_len >= u32::MAX as usize {
            return Err(PakError::InvalidInput);
        }
        if self.encoded_pak_entries.len() > u32::MAX as usize {
            return Err(PakError::InvalidInput);
        }
        let mut fbuf = ArchiveWriter::new();
        match ser_files(&mut fbuf, &self.files, version) {
            Ok(()) => (),
            Err(e) => { return Err(e) },
        }
        let mut pbuf = ArchiveWriter::new();
        if self.has_path_hash_index {
            match ser_phi_map(&mut pbuf, &self.path_hash_index) {
                Ok(()) => (),
                Err(e) => { return Err(e) },
            }
            match ser_dir_map(&mut pbuf, &self.pruned_directory_index) {
                Ok(()) => (),
                Err(e) => { return Err(e) },
            }
        }
        let mut dbuf = ArchiveWriter::new();
        if self.has_full_directory_index {
            match ser_dir_map(&mut dbuf, &self.full_directory_index) {
                Ok(()) => (),
                Err(e) => { return Err(e) },
            }
        }
        let main_len: u128 = (4 + mount_bytes_len as u128 + 1) + 4 + 8 + 4 + (
        if self.has_path_hash_index {
            36
        } else {
            0
        }) + 4 + (if self.has_full_directory_index {
            36
        } else {
            0
        }) + 4 + self.encoded_pak_entries.len() as u128 + fbuf.len() as u128;
        let base: u128 = w.len() as u128;
        let plen: u128 = pbuf.len() as u128;
        let dlen: u128 = dbuf.len() as u128;
        proof {
            vstd::bytes::lemma_auto_spec_u32_to_from_le_bytes();
            vstd::bytes::lemma_auto_spec_u64_to_from_le_bytes();
            assert(enc_str(self.mount_point@).len() == 4 + mount_bytes_len + 1);
            assert(fbuf.data@.len() == 4 + enc_files(self.files@, version).len());
            assert(enc_v2_main(*self, version).len() == main_len);
            assert(pbuf.data@.len() == enc_phi_region_if(*self).len());
            assert(dbuf.data@.len() == enc_fdi_region_if(*self).len());
        }
        if base + main_len + plen + dlen > i64::MAX as u128 {
            return Err(PakError::InvalidInput);
        }
        if self.has_path_hash_index {
            self.path_hash_index_offset = (base + main_len) as i64;
            self.path_hash_index_size = plen as i64;
            self.path_hash_index_hash = crate::crypto::sha1_digest(pbuf.data.as_slice());
        }
        if self.has_full_directory_index {
            self.full_directory_index_offset = (base + main_len + plen) as i64;
            self.full_directory_index_size = dlen as i64;
            self.full_directory_index_hash = crate::crypto::sha1_digest(dbuf.data.as_slice());
        }
        let ghost b0 = w.data@;
        match w.ser_str(self.mount_point.as_str()) {
            Ok(()) => (),
            Err(e) => {
                proof {
                    assert(false);
                }
                return Err(e);
            },
        }
        w.ser_u32(self.num_entries);
        w.ser_u64(self.path_hash_seed);
        w.ser_b32(self.has_path_hash_index);
        if self.has_path_hash_index {
            w.ser_i64(self.path_hash_index_offset);
            w.ser_i64(self.path_hash_index_size);
            w.write_all(self.path_hash_index_hash.as_slice());
        }
        w.ser_b32(self.has_full_directory_index);
        if self.has_full_directory_index {
            w.ser_i64(self.full_directory_index_offset);
            w.ser_i64(self.full_directory_index_size);
            w.write_all(self.full_directory_index_hash.as_slice());
        }
        w.ser_u32(self.encoded_pak_entries.len() as u32);
        w.write_all(self.encoded_pak_entries.as_slice());
        w.write_all(fbuf.data.as_slice());
        proof {
            vstd::bytes::lemma_auto_spec_u32_to_from_le_bytes();
            vstd::bytes::lemma_auto_spec_u64_to_from_le_bytes();
            assert(w.data@ =~= b0 + enc_v2_main(*self, version));
            assert(pbuf.data@ =~= enc_phi_region_if(*self));
            assert(dbuf.data@ =~= enc_fdi_region_if(*self));
            assert(enc_v2_main(*self, version).len() == main_len);
        }
        w.write_all(pbuf.data.as_slice());
        w.write_all(dbuf.data.as_slice());
        proof {
            assert(enc_v2_main(*old(self), version).len() == enc_v2_main(*self, version).len());
            assert(enc_phi_region_if(*old(self)) == enc_phi_region_if(*self));
            assert(enc_fdi_region_if(*old(self)) == enc_fdi_region_if(*self));
        }
        Ok(())
    }
}


proof fn lemma_dec_phi_pairs_bounds(s: Seq<u8>, n: nat)
    requires
        dec_phi_pairs(s, n) is Some,
    ensures
        0 <= dec_phi_pairs(s, n)->Some_0.1 <= s.len(),
    decreases n,
{
    if n > 0 {
        lemma_dec_phi_pairs_bounds(s.skip(12), (n - 1) as nat);
    }
}

proof fn lemma_dec_name_pairs_bounds(s: Seq<u8>, n: nat)
    requires
        dec_name_pairs(s, n) is Some,
    ensures
        0 <= dec_name_pairs(s, n)->Some_0.1 <= s.len(),
    decreases n,
{
    if n > 0 {
        let h = dec_str(s)->Some_0;
        crate::pakindexv1::lemma_dec_str_bounds(s);
        lemma_dec_name_pairs_bounds(s.skip(h.1 + 4), (n - 1) as nat);
    }
}

proof fn lemma_dec_dir_pairs_bounds(s: Seq<u8>, n: nat)
    requires
        dec_dir_pairs(s, n) is Some,
    ensures
        0 <= dec_dir_pairs(s, n)->Some_0.1 <= s.len(),
    decreases n,
{
    if n > 0 {
        let h = dec_str(s)->Some_0;
        crate::pakindexv1::lemma_dec_str_bounds(s);
        lemma_dec_inner_bounds(s.skip(h.1));
        let im = dec_inner_map(s.skip(h.1))->Some_0;
        lemma_dec_dir_pairs_bounds(s.skip(h.1 + im.1), (n - 1) as nat);
    }
}

proof fn lemma_dec_inner_bounds(s: Seq<u8>)
    requires
        dec_inner_map(s) is Some,
    ensures
        4 <= dec_inner_map(s)->Some_0.1 <= s.len(),
{
    let n = dec_u32(s)->Some_0.0;
    lemma_dec_name_pairs_bounds(s.skip(4), n as nat);
}


/// Some count-prefixed map inside the region bytes carries out-of-order keys.
pub open spec fn region_wire_unsorted(t: Seq<u8>) -> bool {
    ||| (exists|q2: int, j: int|
        #![trigger dec_phi_pairs(t.skip(q2), j as nat)]
        0 <= q2 <= t.len() && 2 <= j && dec_phi_pairs(t.skip(q2), j as nat) is Some && ({
            let p = dec_phi_pairs(t.skip(q2), j as nat)->Some_0.0;
            p[j - 2].0 >= p[j - 1].0
        }))
    ||| (exists|q2: int, j: int|
        #![trigger dec_name_pairs(t.skip(q2), j as nat)]
        0 <= q2 <= t.len() && 2 <= j && dec_name_pairs(t.skip(q2), j as nat) is Some && ({
            let p = dec_name_pairs(t.skip(q2), j as nat)->Some_0.0;
            !str_lt(p[j - 2].0, p[j - 1].0)
        }))
    ||| (exists|q2: int, j: int|
        #![trigger dec_dir_pairs(t.skip(q2), j as nat)]
        0 <= q2 <= t.len() && 2 <= j && dec_dir_pairs(t.skip(q2), j as nat) is Some && ({
            let p = dec_dir_pairs(t.skip(q2), j as nat)->Some_0.0;
            !str_lt(p[j - 2].0, p[j - 1].0)
        }))
}

/// Extends a successful path-hash pair-list parse by one pair.
proof fn lemma_dec_phi_step(
    region: Seq<u8>,
    i: nat,
    q: int,
    fv: Seq<(u64, i32)>,
    k: u64,
    raw: i32,
)
    requires
        dec_phi_pairs(region, i) == Some((fv, q)),
        dec_u64(region.skip(q)) == Some((k, 8int)),
        dec_i32(region.skip(q + 8)) == Some((raw, 4int)),
    ensures
        dec_phi_pairs(region, i + 1) == Some((fv.push((k, raw)), q + 12)),
    decreases i,
{
    if i == 0 {
        assert(region.skip(0) =~= region);
        assert(q == 0);
        assert(region.skip(8int) =~= region.skip(0int + 8));
        assert(dec_phi_pairs(region.skip(12), 0) == Some((Seq::<(u64, i32)>::empty(), 0int)));
        assert(fv.push((k, raw)) =~= seq![(k, raw)] + Seq::<(u64, i32)>::empty());
    } else {
        let h = dec_u64(region)->Some_0;
        let r2 = dec_i32(region.skip(8))->Some_0;
        let sub = region.skip(12);
        let subpair = dec_phi_pairs(sub, (i - 1) as nat)->Some_0;
        lemma_dec_phi_pairs_bounds(sub, (i - 1) as nat);
        assert(sub.skip(q - 12) =~= region.skip(q));
        assert(sub.skip(q - 12 + 8) =~= region.skip(q + 8));
        lemma_dec_phi_step(sub, (i - 1) as nat, q - 12, subpair.0, k, raw);
        assert(fv =~= seq![(h.0, r2.0)] + subpair.0);
        assert(fv.push((k, raw)) =~= seq![(h.0, r2.0)] + subpair.0.push((k, raw)));
    }
}

/// Reads the path-hash map; pairs come back in wire order.
fn de_phi_map_exec(r: &mut ArchiveReader) -> (res: Result<Vec<(u64, RawPakEntryLocation)>, PakError>)
    requires
        old(r).wf(),
    ensures
        final(r).wf(),
        final(r).data@ == old(r).data@,
        match res {
            Ok(m) => dec_phi_map(old(r).remaining()) == Some(
                (phi_view(m@), final(r).pos - old(r).pos),
            ) && final(r).pos >= old(r).pos && phi_sorted(m@),
            Err(e) => (e == PakError::Eof && dec_phi_map(old(r).remaining()) is None) || (e
                == PakError::InvalidData && region_wire_unsorted(old(r).remaining())),
        },
{
    let ghost s = old(r).remaining();
    let ghost p0 = r.pos as int;
    let n = match r.de_u32() {
        Ok(x) => x,
        Err(e) => { return Err(e) },
    };
    let ghost region = s.skip(4);
    proof {
        assert(r.remaining() =~= region);
    }
    let mut m: Vec<(u64, RawPakEntryLocation)> = Vec::new();
    let mut i: usize = 0;
    proof {
        assert(phi_view(m@) =~= Seq::<(u64, i32)>::empty());
    }
    while i < n as usize
        invariant
            r.wf(),
            r.data@ == old(r).data@,
            i <= n as usize,
            region == s.skip(4),
            0 <= p0,
            p0 == old(r).pos as int,
            p0 + 4 <= r.data@.len(),
            s == old(r).remaining(),
            s == old(r).data@.subrange(p0, old(r).data@.len() as int),
            r.pos >= p0 + 4,
            m@.len() == i as int,
            phi_sorted(m@),
            dec_u32(s) == Some((n, 4int)),
            dec_phi_pairs(region, i as nat) == Some((phi_view(m@), r.pos - p0 - 4)),
        decreases n as int - i,
    {
        proof {
            assert(r.remaining() =~= region.skip(r.pos - p0 - 4));
        }
        let ghost q = r.pos - p0 - 4;
        let k = match r.de_u64() {
            Ok(x) => x,
            Err(_) => {
                proof {
                    lemma_dec_phi_fail(region, i as nat, n as nat, q);
                }
                return Err(PakError::Eof)
            },
        };
        proof {
            assert(r.remaining() =~= region.skip(q + 8));
        }
        let raw = match r.de_i32() {
            Ok(x) => x,
            Err(_) => {
                proof {
                    lemma_dec_phi_fail(region, i as nat, n as nat, q);
                }
                return Err(PakError::Eof)
            },
        };
        if m.len() > 0 && m[m.len() - 1].0 >= k {
            proof {
                let ghost before = phi_view(m@);
                lemma_dec_phi_step(region, i as nat, q, before, k, raw);
                let p = dec_phi_pairs(region, (i + 1) as nat)->Some_0.0;
                assert(p[i as int - 1].0 == m@[m@.len() - 1].0);
                assert(p[i as int].0 == k);
                assert(region =~= s.skip(4).skip(0));
                assert(s.skip(4).skip(0) =~= s.skip(4));
                assert(dec_phi_pairs(s.skip(4), (i + 1) as nat) is Some);
                assert(region_wire_unsorted(s));
            }
            return Err(PakError::InvalidData);
        }
        let ghost before = phi_view(m@);
        m.push((k, RawPakEntryLocation::from_raw(raw)));
        proof {
            assert(phi_view(m@) =~= before.push((k, raw)));
            lemma_dec_phi_step(region, i as nat, q, before, k, raw);
        }
        i = i + 1;
    }
    Ok(m)
}

/// Extends a successful name pair-list parse by one pair.
proof fn lemma_dec_name_step(
    region: Seq<u8>,
    i: nat,
    q: int,
    fv: Seq<(Seq<char>, i32)>,
    name: Seq<char>,
    p1: int,
    raw: i32,
)
    requires
        dec_name_pairs(region, i) == Some((fv, q)),
        dec_str(region.skip(q)) == Some((name, p1)),
        dec_i32(region.skip(q + p1)) == Some((raw, 4int)),
    ensures
        dec_name_pairs(region, i + 1) == Some((fv.push((name, raw)), q + p1 + 4)),
    decreases i,
{
    if i == 0 {
        assert(region.skip(0) =~= region);
        assert(q == 0);
        assert(region.skip(p1) =~= region.skip(0int + p1));
        assert(dec_name_pairs(region.skip(p1 + 4), 0) == Some(
            (Seq::<(Seq<char>, i32)>::empty(), 0int),
        ));
        assert(fv.push((name, raw)) =~= seq![(name, raw)] + Seq::<(Seq<char>, i32)>::empty());
    } else {
        let h = dec_str(region)->Some_0;
        let r2 = dec_i32(region.skip(h.1))->Some_0;
        let sub = region.skip(h.1 + 4);
        let subpair = dec_name_pairs(sub, (i - 1) as nat)->Some_0;
        crate::pakindexv1::lemma_dec_str_bounds(region);
        lemma_dec_name_pairs_bounds(sub, (i - 1) as nat);
        assert(sub.skip(q - h.1 - 4) =~= region.skip(q));
        assert(sub.skip(q - h.1 - 4 + p1) =~= region.skip(q + p1));
        lemma_dec_name_step(sub, (i - 1) as nat, q - h.1 - 4, subpair.0, name, p1, raw);
        assert(fv =~= seq![(h.0, r2.0)] + subpair.0);
        assert(fv.push((name, raw)) =~= seq![(h.0, r2.0)] + subpair.0.push((name, raw)));
    }
}

/// Reads one inner name map.
fn de_inner_map_exec(r: &mut ArchiveReader) -> (res: Result<
    Vec<(String, RawPakEntryLocation)>,
    PakError,
>)
    requires
        old(r).wf(),
    ensures
        final(r).wf(),
        final(r).data@ == old(r).data@,
        match res {
            Ok(m) => dec_inner_map(old(r).remaining()) == Some(
                (inner_view(m@), final(r).pos - old(r).pos),
            ) && final(r).pos >= old(r).pos && inner_sorted(m@),
            Err(e) => ((e == PakError::Eof || e == PakError::Other) && dec_inner_map(
                old(r).remaining(),
            ) is None) || (e == PakError::InvalidData && region_wire_unsorted(
                old(r).remaining(),
            )),
        },
{
    let ghost s = old(r).remaining();
    let ghost p0 = r.pos as int;
    let n = match r.de_u32() {
        Ok(x) => x,
        Err(e) => { return Err(e) },
    };
    let ghost region = s.skip(4);
    proof {
        assert(r.remaining() =~= region);
    }
    let mut m: Vec<(String, RawPakEntryLocation)> = Vec::new();
    let mut i: usize = 0;
    proof {
        assert(inner_view(m@) =~= Seq::<(Seq<char>, i32)>::empty());
    }
    while i < n as usize
        invariant
            r.wf(),
            r.data@ == old(r).data@,
            i <= n as usize,
            region == s.skip(4),
            0 <= p0,
            p0 == old(r).pos as int,
            p0 + 4 <= r.data@.len(),
            s == old(r).remaining(),
            s == old(r).data@.subrange(p0, old(r).data@.len() as int),
            r.pos >= p0 + 4,
            m@.len() == i as int,
            inner_sorted(m@),
            dec_u32(s) == Some((n, 4int)),
            dec_name_pairs(region, i as nat) == Some((inner_view(m@), r.pos - p0 - 4)),
        decreases n as int - i,
    {
        proof {
            assert(r.remaining() =~= region.skip(r.pos - p0 - 4));
        }
        let ghost q = r.pos - p0 - 4;
        let name = match r.de_str() {
            Ok(x) => x,
            Err(e) => {
                proof {
                    lemma_dec_name_fail(region, i as nat, n as nat, q);
                }
                return Err(e)
            },
        };
        let ghost p1 = r.pos - p0 - 4 - q;
        proof {
            assert(r.remaining() =~= region.skip(q + p1));
        }
        let raw = match r.de_i32() {
            Ok(x) => x,
            Err(_) => {
                proof {
                    assert(dec_str(region.skip(q))->Some_0.1 == p1);
                    lemma_dec_name_fail(region, i as nat, n as nat, q);
                }
                return Err(PakError::Eof)
            },
        };
        if m.len() > 0 && str_cmp3(m[m.len() - 1].0.as_str(), name.as_str()) != -1 {
            proof {
                let before = inner_view(m@);
                lemma_dec_name_step(region, i as nat, q, before, name@, p1, raw);
                let p = dec_name_pairs(region, (i + 1) as nat)->Some_0.0;
                assert(p[i as int - 1].0 == m@[m@.len() - 1].0@);
                assert(p[i as int].0 == name@);
                assert(region =~= s.skip(4).skip(0));
                assert(s.skip(4).skip(0) =~= s.skip(4));
                assert(dec_name_pairs(s.skip(4), (i + 1) as nat) is Some);
                assert(region_wire_unsorted(s));
            }
            return Err(PakError::InvalidData);
        }
        let ghost before = inner_view(m@);
        m.push((name, RawPakEntryLocation::from_raw(raw)));
        proof {
            assert(inner_view(m@) =~= before.push((m@[i as int].0@, raw)));
            lemma_dec_name_step(region, i as nat, q, before, m@[i as int].0@, p1, raw);
            assert forall|a: int, b: int| 0 <= a < b < m@.len() implies str_lt(
                (#[trigger] m@[a]).0@,
                (#[trigger] m@[b]).0@,
            ) by {
                if b == m@.len() - 1 && a < m@.len() - 2 {
                    lemma_lex_lt_trans(
                        str_bytes(m@[a].0@),
                        str_bytes(m@[m@.len() - 2].0@),
                        str_bytes(m@[b].0@),
                    );
                }
            }
        }
        i = i + 1;
    }
    Ok(m)
}

/// Extends a successful directory-list parse by one directory.
proof fn lemma_dec_dir_step(
    region: Seq<u8>,
    i: nat,
    q: int,
    fv: Seq<(Seq<char>, Seq<(Seq<char>, i32)>)>,
    name: Seq<char>,
    p1: int,
    inner: Seq<(Seq<char>, i32)>,
    p2: int,
)
    requires
        dec_dir_pairs(region, i) == Some((fv, q)),
        dec_str(region.skip(q)) == Some((name, p1)),
        dec_inner_map(region.skip(q + p1)) == Some((inner, p2)),
        p2 >= 0,
    ensures
        dec_dir_pairs(region, i + 1) == Some((fv.push((name, inner)), q + p1 + p2)),
    decreases i,
{
    if i == 0 {
        assert(region.skip(0) =~= region);
        assert(q == 0);
        assert(region.skip(p1) =~= region.skip(0int + p1));
        assert(dec_dir_pairs(region.skip(p1 + p2), 0) == Some(
            (Seq::<(Seq<char>, Seq<(Seq<char>, i32)>)>::empty(), 0int),
        ));
        assert(fv.push((name, inner)) =~= seq![(name, inner)] + Seq::<
            (Seq<char>, Seq<(Seq<char>, i32)>),
        >::empty());
    } else {
        let h = dec_str(region)->Some_0;
        let im = dec_inner_map(region.skip(h.1))->Some_0;
        let sub = region.skip(h.1 + im.1);
        let subpair = dec_dir_pairs(sub, (i - 1) as nat)->Some_0;
        crate::pakindexv1::lemma_dec_str_bounds(region);
        lemma_dec_inner_bounds(region.skip(h.1));
        lemma_dec_dir_pairs_bounds(sub, (i - 1) as nat);
        assert(sub.skip(q - h.1 - im.1) =~= region.skip(q));
        assert(sub.skip(q - h.1 - im.1 + p1) =~= region.skip(q + p1));
        lemma_dec_dir_step(sub, (i - 1) as nat, q - h.1 - im.1, subpair.0, name, p1, inner, p2);
        assert(fv =~= seq![(h.0, im.0)] + subpair.0);
        assert(fv.push((name, inner)) =~= seq![(h.0, im.0)] + subpair.0.push((name, inner)));
    }
}

/// Reads one directory tree.
#[verifier::rlimit(100)]
#[verifier::spinoff_prover]
fn de_dir_map_exec(r: &mut ArchiveReader) -> (res: Result<
    Vec<(String, Vec<(String, RawPakEntryLocation)>)>,
    PakError,
>)
    requires
        old(r).wf(),
    ensures
        final(r).wf(),
        final(r).data@ == old(r).data@,
        match res {
            Ok(d) => dec_dir_map(old(r).remaining()) == Some(
                (dir_view(d@), final(r).pos - old(r).pos),
            ) && final(r).pos >= old(r).pos && dir_wf(d@),
            Err(e) => ((e == PakError::Eof || e == PakError::Other) && dec_dir_map(
                old(r).remaining(),
            ) is None) || (e == PakError::InvalidData && region_wire_unsorted(
                old(r).remaining(),
            )),
        },
{
    let ghost s = old(r).remaining();
    let ghost p0 = r.pos as int;
    let n = match r.de_u32() {
        Ok(x) => x,
        Err(e) => { return Err(e) },
    };
    let ghost region = s.skip(4);
    proof {
        assert(r.remaining() =~= region);
    }
    let mut d: Vec<(String, Vec<(String, RawPakEntryLocation)>)> = Vec::new();
    let mut i: usize = 0;
    proof {
        assert(dir_view(d@) =~= Seq::<(Seq<char>, Seq<(Seq<char>, i32)>)>::empty());
    }
    while i < n as usize
        invariant
            r.wf(),
            r.data@ == old(r).data@,
            i <= n as usize,
            region == s.skip(4),
            0 <= p0,
            p0 == old(r).pos as int,
            p0 + 4 <= r.data@.len(),
            s == old(r).remaining(),
            s == old(r).data@.subrange(p0, old(r).data@.len() as int),
            r.pos >= p0 + 4,
            d@.len() == i as int,
            dir_wf(d@),
            dec_u32(s) == Some((n, 4int)),
            dec_dir_pairs(region, i as nat) == Some((dir_view(d@), r.pos - p0 - 4)),
        decreases n as int - i,
    {
        proof {
            assert(r.remaining() =~= region.skip(r.pos - p0 - 4));
        }
        let ghost q = r.pos - p0 - 4;
        let name = match r.de_str() {
            Ok(x) => x,
            Err(e) => {
                proof {
                    lemma_dec_dir_fail(region, i as nat, n as nat, q);
                }
                return Err(e)
            },
        };
        let ghost p1 = r.pos - p0 - 4 - q;
        proof {
            assert(r.remaining() =~= region.skip(q + p1));
        }
        let inner = match de_inner_map_exec(r) {
            Ok(x) => x,
            Err(e) => {
                proof {
                    assert(dec_str(region.skip(q))->Some_0.1 == p1);
                    if e == PakError::InvalidData {
                        crate::pakindexv1::lemma_dec_str_bounds(region.skip(q));
                        let inner_rem = region.skip(q + p1);
                        assert(inner_rem =~= s.skip(4 + q + p1));
                        lemma_wire_unsorted_lift(s, 4 + q + p1, inner_rem);
                    } else {
                        lemma_dec_dir_fail(region, i as nat, n as nat, q);
                    }
                }
                return Err(e)
            },
        };
        let ghost p2 = r.pos - p0 - 4 - q - p1;
        if d.len() > 0 && str_cmp3(d[d.len() - 1].0.as_str(), name.as_str()) != -1 {
            proof {
                let before = dir_view(d@);
                lemma_dec_dir_step(
                    region,
                    i as nat,
                    q,
                    before,
                    name@,
                    p1,
                    inner_view(inner@),
                    p2,
                );
                let p = dec_dir_pairs(region, (i + 1) as nat)->Some_0.0;
                assert(p[i as int - 1].0 == d@[d@.len() - 1].0@);
                assert(p[i as int].0 == name@);
                assert(region =~= s.skip(4).skip(0));
                assert(s.skip(4).skip(0) =~= s.skip(4));
                assert(dec_dir_pairs(s.skip(4), (i + 1) as nat) is Some);
                assert(region_wire_unsorted(s));
            }
            return Err(PakError::InvalidData);
        }
        let ghost before = dir_view(d@);
        d.push((name, inner));
        proof {
            assert(dir_view(d@) =~= before.push((d@[i as int].0@, inner_view(d@[i as int].1@))));
            lemma_dec_dir_step(
                region,
                i as nat,
                q,
                before,
                d@[i as int].0@,
                p1,
                inner_view(d@[i as int].1@),
                p2,
            );
            assert forall|a: int, b: int| 0 <= a < b < d@.len() implies str_lt(
                (#[trigger] d@[a]).0@,
                (#[trigger] d@[b]).0@,
            ) by {
                if b == d@.len() - 1 && a < d@.len() - 2 {
                    lemma_lex_lt_trans(
                        str_bytes(d@[a].0@),
                        str_bytes(d@[d@.len() - 2].0@),
                        str_bytes(d@[b].0@),
                    );
                }
            }
        }
        i = i + 1;
    }
    Ok(d)
}

proof fn lemma_dec_entry_bounds2(s: Seq<u8>, v: PakVersion)
    requires
        dec_entry(s, v) is Some,
    ensures
        0 < dec_entry(s, v)->Some_0.1 <= s.len(),
{
    let m = crate::pakentry::dec_method(s.skip(24), v)->Some_0;
    assert(m.1 == 1 || m.1 == 4);
}

/// Extends a successful full-form list parse by one entry.
#[verifier::rlimit(100)]
#[verifier::spinoff_prover]
proof fn lemma_dec_files_step(
    region: Seq<u8>,
    i: nat,
    v: PakVersion,
    q: int,
    fv: Seq<PakEntryV>,
    ev: PakEntryV,
    p1: int,
)
    requires
        dec_files_list(region, i, v) == Some((fv, q)),
        dec_entry(region.skip(q), v) == Some((ev, p1)),
    ensures
        dec_files_list(region, i + 1, v) == Some((fv.push(ev), q + p1)),
    decreases i,
{
    if i == 0 {
        assert(region.skip(0) =~= region);
        assert(q == 0);
        assert(dec_files_list(region.skip(p1), 0, v) == Some((Seq::<PakEntryV>::empty(), 0int)));
        assert(fv.push(ev) =~= seq![ev] + Seq::<PakEntryV>::empty());
    } else {
        let h = dec_entry(region, v)->Some_0;
        let sub = region.skip(h.1);
        let subpair = dec_files_list(sub, (i - 1) as nat, v)->Some_0;
        lemma_dec_entry_bounds2(region, v);
        lemma_dec_files_bounds(sub, (i - 1) as nat, v);
        assert(sub.skip(q - h.1) =~= region.skip(q));
        lemma_dec_files_step(sub, (i - 1) as nat, v, q - h.1, subpair.0, ev, p1);
        assert(fv =~= seq![h.0] + subpair.0);
        assert(fv.push(ev) =~= seq![h.0] + subpair.0.push(ev));
    }
}

proof fn lemma_dec_files_bounds(s: Seq<u8>, n: nat, v: PakVersion)
    requires
        dec_files_list(s, n, v) is Some,
    ensures
        0 <= dec_files_list(s, n, v)->Some_0.1 <= s.len(),
    decreases n,
{
    if n > 0 {
        let h = dec_entry(s, v)->Some_0;
        lemma_dec_entry_bounds2(s, v);
        lemma_dec_files_bounds(s.skip(h.1), (n - 1) as nat, v);
    }
}

impl PakIndexV2 {
    /// Reads the top-level V2 region; the maps and the entry cache stay empty
    /// until the secondary regions are read.
    #[verifier::rlimit(100)]
    #[verifier::spinoff_prover]
    pub fn de(r: &mut ArchiveReader, version: PakVersion) -> (res: Result<PakIndexV2, PakError>)
        requires
            old(r).wf(),
        ensures
            final(r).wf(),
            final(r).data@ == old(r).data@,
            match res {
                Ok(x) => dec_v2_main(old(r).remaining(), version) == Some(
                    (v2_main_view(x), final(r).pos - old(r).pos),
                ) && x.path_hash_index@.len() == 0 && x.pruned_directory_index@.len() == 0
                    && x.full_directory_index@.len() == 0 && x.decoded_pak_entries@.len() == 0
                    && final(r).pos >= old(r).pos,
                Err(e) => (e == PakError::Eof || e == PakError::Other) && dec_v2_main(
                    old(r).remaining(),
                    version,
                ) is None,
            },
    {
        let ghost s = old(r).remaining();
        let ghost p0g = r.pos as int;
        let (mount, num, seed, phi, fdi) = match de_v2_header(r) {
            Ok(t) => t,
            Err(e) => { return Err(e) },
        };
        let (has_phi, phi_off, phi_size, phi_hash) = phi;
        let (has_fdi, fdi_off, fdi_size, fdi_hash) = fdi;
        let ghost p0 = dec_str(s)->Some_0.1;
        let ghost p2: int = if has_phi {
            p0 + 52
        } else {
            p0 + 16
        };
        let ghost p3: int = if has_fdi {
            p2 + 40
        } else {
            p2 + 4
        };
        proof {
            assert(r.remaining() =~= s.skip(p3));
        }
        let (blob, files) = match de_blob_files(r, version) {
            Ok(t) => t,
            Err(e) => {
                proof {
                    lemma_v2_main_reduces(
                        s,
                        version,
                        mount@,
                        p0,
                        num,
                        seed,
                        has_phi,
                        phi_off,
                        phi_size,
                        phi_hash@,
                        has_fdi,
                        fdi_off,
                        fdi_size,
                        fdi_hash@,
                    );
                    lemma_tail_none(
                        s,
                        version,
                        mount@,
                        num,
                        seed,
                        has_phi,
                        phi_off,
                        phi_size,
                        phi_hash@,
                        has_fdi,
                        fdi_off,
                        fdi_size,
                        fdi_hash@,
                        p3,
                    );
                }
                return Err(e)
            },
        };
        let ghost p4 = p3 + 4 + blob@.len() as int;
        proof {
            assert(s.skip(p3).skip(4 + blob@.len() as int) =~= s.skip(p4 + 4 - 4));
            assert(s.skip(p3).subrange(4, 4 + blob@.len() as int) =~= s.subrange(p3 + 4, p4));
            assert(s.skip(p3).skip(8 + blob@.len() as int) =~= s.skip(p4 + 4));
        }
        let x = PakIndexV2 {
            mount_point: mount,
            num_entries: num,
            files,
            path_hash_seed: seed,
            encoded_pak_entries: blob,
            decoded_pak_entries: Vec::new(),
            has_path_hash_index: has_phi,
            path_hash_index_offset: phi_off,
            path_hash_index_size: phi_size,
            path_hash_index_hash: phi_hash,
            path_hash_index: Vec::new(),
            pruned_directory_index: Vec::new(),
            has_full_directory_index: has_fdi,
            full_directory_index_offset: fdi_off,
            full_directory_index_size: fdi_size,
            full_directory_index_hash: fdi_hash,
            full_directory_index: Vec::new(),
        };
        proof {
            lemma_assemble_v2_main(s, version, x, p0, r.pos - p0g - p4 - 4);
        }
        Ok(x)
    }

    /// Reads the PathHashIndex region into the index: the hash map, then the
    /// pruned directory tree.
    pub fn de_phi_region(&mut self, r: &mut ArchiveReader) -> (res: Result<(), PakError>)
        requires
            old(r).wf(),
        ensures
            final(r).wf(),
            final(r).data@ == old(r).data@,
            v2_main_view(*final(self)) == v2_main_view(*old(self)),
            final(self).mount_point@ == old(self).mount_point@,
            final(self).files@ == old(self).files@,
            final(self).encoded_pak_entries@ == old(self).encoded_pak_entries@,
            final(self).decoded_pak_entries@ == old(self).decoded_pak_entries@,
            final(self).has_path_hash_index == old(self).has_path_hash_index,
            final(self).has_full_directory_index == old(self).has_full_directory_index,
            final(self).full_directory_index@ == old(self).full_directory_index@,
            match res {
                Ok(()) => ({
                    let p = dec_phi_map(old(r).remaining())->Some_0.1;
                    &&& dec_phi_map(old(r).remaining()) == Some(
                        (phi_view(final(self).path_hash_index@), p),
                    )
                    &&& dec_dir_map(old(r).remaining().skip(p)) == Some(
                        (
                            dir_view(final(self).pruned_directory_index@),
                            final(r).pos - old(r).pos - p,
                        ),
                    )
                    &&& phi_sorted(final(self).path_hash_index@)
                    &&& dir_wf(final(self).pruned_directory_index@)
                }),
                Err(e) => ((e == PakError::Eof || e == PakError::Other) && (dec_phi_map(
                    old(r).remaining(),
                ) is None || dec_dir_map(
                    old(r).remaining().skip(dec_phi_map(old(r).remaining())->Some_0.1),
                ) is None)) || (e == PakError::InvalidData && region_wire_unsorted(
                    old(r).remaining(),
                )),
            },
    {
        let ghost s = old(r).remaining();
        let ghost pg = r.pos as int;
        let m = match de_phi_map_exec(r) {
            Ok(m) => m,
            Err(e) => { return Err(e) },
        };
        let ghost p = r.pos - pg;
        proof {
            assert(r.remaining() =~= s.skip(p));
        }
        let d = match de_dir_map_exec(r) {
            Ok(d) => d,
            Err(e) => {
                proof {
                    if e == PakError::InvalidData {
                        lemma_wire_unsorted_lift(s, p, s.skip(p));
                    }
                }
                return Err(e)
            },
        };
        self.path_hash_index = m;
        self.pruned_directory_index = d;
        Ok(())
    }

    /// Reads the FullDirectoryIndex region into the index.
    pub fn de_fdi_region(&mut self, r: &mut ArchiveReader) -> (res: Result<(), PakError>)
        requires
            old(r).wf(),
        ensures
            final(r).wf(),
            final(r).data@ == old(r).data@,
            v2_main_view(*final(self)) == v2_main_view(*old(self)),
            final(self).mount_point@ == old(self).mount_point@,
            final(self).files@ == old(self).files@,
            final(self).encoded_pak_entries@ == old(self).encoded_pak_entries@,
            final(self).has_path_hash_index == old(self).has_path_hash_index,
            final(self).has_full_directory_index == old(self).has_full_directory_index,
            final(self).path_hash_index@ == old(self).path_hash_index@,
            final(self).pruned_directory_index@ == old(self).pruned_directory_index@,
            final(self).decoded_pak_entries@ == old(self).decoded_pak_entries@,
            match res {
                Ok(()) => dec_dir_map(old(r).remaining()) == Some(
                    (dir_view(final(self).full_directory_index@), final(r).pos - old(r).pos),
                ) && dir_wf(final(self).full_directory_index@),
                Err(e) => ((e == PakError::Eof || e == PakError::Other) && dec_dir_map(
                    old(r).remaining(),
                ) is None) || (e == PakError::InvalidData && region_wire_unsorted(
                    old(r).remaining(),
                )),
            },
    {
        let d = match de_dir_map_exec(r) {
            Ok(d) => d,
            Err(e) => { return Err(e) },
        };
        self.full_directory_index = d;
        Ok(())
    }

    /// Materializes every blob-offset location of the path-hash map by
    /// decoding the compact entry it points at: the cache lists exactly the
    /// map's blob offsets, in map order, each with its decoded entry. An
    /// offset beyond the blob, or one whose bytes do not parse, is corruption.
    pub fn decode_linked(&mut self, version: PakVersion) -> (res: Result<(), PakError>)
        requires
            version.spec_at_least(PakVersion::FNameBasedCompressionMethod),
        ensures
            v2_main_view(*final(self)) == v2_main_view(*old(self)),
            final(self).mount_point@ == old(self).mount_point@,
            final(self).files@ == old(self).files@,
            final(self).encoded_pak_entries@ == old(self).encoded_pak_entries@,
            final(self).path_hash_index@ == old(self).path_hash_index@,
            final(self).pruned_directory_index@ == old(self).pruned_directory_index@,
            final(self).full_directory_index@ == old(self).full_directory_index@,
            final(self).has_path_hash_index == old(self).has_path_hash_index,
            final(self).has_full_directory_index == old(self).has_full_directory_index,
            match res {
                Ok(()) => ({
                    let locs = offset_locs(old(self).path_hash_index@);
                    &&& final(self).decoded_pak_entries@.len() == locs.len()
                    &&& forall|j: int|
                        0 <= j < locs.len() ==> ({
                            let pr = #[trigger] final(self).decoded_pak_entries@[j];
                            &&& pr.0 == locs[j]
                            &&& pr.0 <= final(self).encoded_pak_entries@.len()
                            &&& dec_compact(
                                final(self).encoded_pak_entries@.skip(pr.0 as int),
                                version,
                            ) is Some
                            &&& dec_compact(
                                final(self).encoded_pak_entries@.skip(pr.0 as int),
                                version,
                            )->Some_0.0 == pr.1@
                        })
                }),
                Err(e) => (e == PakError::Eof || e == PakError::InvalidData) && (exists|j: int|
                    0 <= j < offset_locs(old(self).path_hash_index@).len() && ({
                        let o = #[trigger] offset_locs(old(self).path_hash_index@)[j];
                        o > old(self).encoded_pak_entries@.len() || dec_compact(
                            old(self).encoded_pak_entries@.skip(o as int),
                            version,
                        ) is None
                    })) && (e == PakError::Eof ==> exists|j: int|
                    0 <= j < offset_locs(old(self).path_hash_index@).len() && ({
                        let o = #[trigger] offset_locs(old(self).path_hash_index@)[j];
                        o <= old(self).encoded_pak_entries@.len() && dec_compact(
                            old(self).encoded_pak_entries@.skip(o as int),
                            version,
                        ) is None
                    })),
            },
    {
        let ghost map = self.path_hash_index@;
        let mut cache: Vec<(usize, PakEntry)> = Vec::new();
        let mut i: usize = 0;
        proof {
            assert(map.take(0) =~= Seq::<(u64, RawPakEntryLocation)>::empty());
            assert(offset_locs(map.take(0)) =~= Seq::<usize>::empty());
        }
        while i < self.path_hash_index.len()
            invariant
                i <= self.path_hash_index@.len(),
                map == self.path_hash_index@,
                version.spec_at_least(PakVersion::FNameBasedCompressionMethod),
                cache@.len() == offset_locs(map.take(i as int)).len(),
                forall|j: int|
                    0 <= j < cache@.len() ==> ({
                        let pr = #[trigger] cache@[j];
                        &&& pr.0 == offset_locs(map.take(i as int))[j]
                        &&& pr.0 <= self.encoded_pak_entries@.len()
                        &&& dec_compact(
                            self.encoded_pak_entries@.skip(pr.0 as int),
                            version,
                        ) is Some
                        &&& dec_compact(
                            self.encoded_pak_entries@.skip(pr.0 as int),
                            version,
                        )->Some_0.0 == pr.1@
                    }),
            decreases self.path_hash_index@.len() - i,
        {
            let loc = self.path_hash_index[i].1;
            proof {
                lemma_offset_locs_push(map.take(i as int), map[i as int]);
                assert(map.take(i + 1) =~= map.take(i as int).push(map[i as int]));
            }
            match loc.get() {
                PakEntryLocation::Offset(o) => {
                    proof {
                        lemma_offset_locs_split(map, i as int);
                        assert(map.skip(i as int)[0] == map[i as int]);
                        assert(offset_locs(map.skip(i as int))[0] == o);
                        assert(offset_locs(map)[offset_locs(map.take(i as int)).len() as int]
                            == o);
                    }
                    if o > self.encoded_pak_entries.len() {
                        return Err(PakError::InvalidData);
                    }
                    let mut br = ArchiveReader {
                        data: slice_dup(self.encoded_pak_entries.as_slice()),
                        pos: o,
                    };
                    let ghost blob = self.encoded_pak_entries@;
                    let e = match Self::decode_entry(&mut br, version) {
                        Ok(e) => e,
                        Err(err) => {
                            proof {
                                assert(br.data@.subrange(o as int, br.data@.len() as int)
                                    =~= blob.skip(o as int));
                            }
                            if err == PakError::Eof {
                                return Err(PakError::Eof);
                            }
                            return Err(PakError::InvalidData);
                        },
                    };
                    proof {
                        assert(br.data@.subrange(o as int, br.data@.len() as int) =~= blob.skip(
                            o as int,
                        ));
                    }
                    cache.push((o, e));
                },
                _ => (),
            }
            i = i + 1;
        }
        proof {
            assert(map.take(map.len() as int) =~= map);
        }
        self.decoded_pak_entries = cache;
        Ok(())
    }
}

/// A verified copy of a byte slice.
fn slice_dup(s: &[u8]) -> (r: Vec<u8>)
    ensures
        r@ == s@,
{
    vstd::slice::slice_to_vec(s)
}


/// Reads `n` full-form entries.
fn de_files_exec(r: &mut ArchiveReader, n: u32, version: PakVersion) -> (res: Result<
    Vec<PakEntry>,
    PakError,
>)
    requires
        old(r).wf(),
    ensures
        final(r).wf(),
        final(r).data@ == old(r).data@,
        match res {
            Ok(fs) => dec_files_list(old(r).remaining(), n as nat, version) == Some(
                (fs@.map(|j: int, e: PakEntry| e@), final(r).pos - old(r).pos),
            ) && final(r).pos >= old(r).pos && fs@.len() == n as int,
            Err(e) => (e == PakError::Eof || e == PakError::Other) && dec_files_list(
                old(r).remaining(),
                n as nat,
                version,
            ) is None,
        },
{
    let ghost s = old(r).remaining();
    let ghost p0g = r.pos as int;
    let mut files: Vec<PakEntry> = Vec::new();
    let mut i: usize = 0;
    proof {
        assert(s.skip(0) =~= s);
        assert(files@.map(|j: int, e: PakEntry| e@) =~= Seq::<PakEntryV>::empty());
    }
    while i < n as usize
        invariant
            r.wf(),
            r.data@ == old(r).data@,
            i <= n as usize,
            0 <= p0g,
            p0g == old(r).pos as int,
            p0g <= r.data@.len(),
            s == old(r).remaining(),
            s == old(r).data@.subrange(p0g, old(r).data@.len() as int),
            r.pos >= p0g,
            files@.len() == i as int,
            dec_files_list(s, i as nat, version) == Some(
                (files@.map(|j: int, e: PakEntry| e@), r.pos - p0g),
            ),
        decreases n as int - i,
    {
        proof {
            assert(r.remaining() =~= s.skip(r.pos - p0g));
        }
        let ghost q = r.pos - p0g;
        let e = match PakEntry::de(r, version) {
            Ok(x) => x,
            Err(err) => {
                proof {
                    lemma_dec_files_fail(s, i as nat, n as nat, version, q);
                }
                return Err(err)
            },
        };
        let ghost before = files@.map(|j: int, e2: PakEntry| e2@);
        files.push(e);
        proof {
            assert(files@.map(|j: int, e2: PakEntry| e2@) =~= before.push(files@[i as int]@));
            lemma_dec_files_step(s, i as nat, version, q, before, files@[i as int]@, r.pos - p0g - q);
        }
        i = i + 1;
    }
    Ok(files)
}


/// Reads one secondary-region triple: offset, size, SHA1.
fn de_triple(r: &mut ArchiveReader) -> (res: Result<(i64, i64, [u8; 20]), PakError>)
    requires
        old(r).wf(),
    ensures
        final(r).wf(),
        final(r).data@ == old(r).data@,
        match res {
            Ok(t) => ({
                let s = old(r).remaining();
                &&& dec_i64(s) == Some((t.0, 8int))
                &&& dec_i64(s.skip(8)) == Some((t.1, 8int))
                &&& s.len() >= 36
                &&& t.2@ == s.subrange(16, 36)
                &&& final(r).pos == old(r).pos + 36
            }),
            Err(e) => e == PakError::Eof && old(r).remaining().len() < 36,
        },
{
    let ghost s = old(r).remaining();
    let ghost pg = r.pos as int;
    let off = match r.de_i64() {
        Ok(x) => x,
        Err(e) => { return Err(e) },
    };
    proof {
        assert(r.remaining() =~= s.skip(8));
    }
    let size = match r.de_i64() {
        Ok(x) => x,
        Err(e) => { return Err(e) },
    };
    let hv = match r.read_exact(20) {
        Ok(x) => x,
        Err(e) => { return Err(e) },
    };
    let hash = vec_to_hash20(&hv);
    proof {
        assert(hash@ =~= s.subrange(16, 36));
    }
    Ok((off, size, hash))
}


/// Assembles the field-level parse facts into the whole-region parse.
#[verifier::rlimit(100)]
#[verifier::spinoff_prover]
proof fn lemma_assemble_v2_main(s: Seq<u8>, version: PakVersion, x: PakIndexV2, p0: int, pf: int)
    requires
        x.path_hash_index@.len() == 0,
        x.pruned_directory_index@.len() == 0,
        x.full_directory_index@.len() == 0,
        x.decoded_pak_entries@.len() == 0,
        dec_str(s) == Some((x.mount_point@, p0)),
        dec_u32(s.skip(p0)) == Some((x.num_entries, 4int)),
        dec_u64(s.skip(p0 + 4)) == Some((x.path_hash_seed, 8int)),
        dec_b32(s.skip(p0 + 12)) == Some((x.has_path_hash_index, 4int)),
        x.has_path_hash_index ==> s.len() >= p0 + 52 && dec_i64(s.skip(p0 + 16)) == Some(
            (x.path_hash_index_offset, 8int),
        ) && dec_i64(s.skip(p0 + 24)) == Some((x.path_hash_index_size, 8int))
            && x.path_hash_index_hash@ == s.subrange(p0 + 32, p0 + 52),
        ({
            let p2: int = if x.has_path_hash_index {
                p0 + 52
            } else {
                p0 + 16
            };
            let p3: int = if x.has_full_directory_index {
                p2 + 40
            } else {
                p2 + 4
            };
            let p4: int = p3 + 4 + x.encoded_pak_entries@.len();
            &&& dec_b32(s.skip(p2)) == Some((x.has_full_directory_index, 4int))
            &&& (x.has_full_directory_index ==> s.len() >= p2 + 40 && dec_i64(s.skip(p2 + 4))
                == Some((x.full_directory_index_offset, 8int)) && dec_i64(s.skip(p2 + 12)) == Some(
                (x.full_directory_index_size, 8int),
            ) && x.full_directory_index_hash@ == s.subrange(p2 + 20, p2 + 40))
            &&& dec_u32(s.skip(p3)) == Some((x.encoded_pak_entries@.len() as u32, 4int))
            &&& x.encoded_pak_entries@.len() <= u32::MAX
            &&& s.len() >= p4
            &&& x.encoded_pak_entries@ == s.subrange(p3 + 4, p4)
            &&& dec_u32(s.skip(p4)) == Some((x.files@.len() as u32, 4int))
            &&& x.files@.len() <= u32::MAX
            &&& dec_files_list(s.skip(p4 + 4), x.files@.len() as nat, version) == Some(
                (x.files@.map(|j: int, e: PakEntry| e@), pf),
            )
        }),
    ensures
        ({
            let p2: int = if x.has_path_hash_index {
                p0 + 52
            } else {
                p0 + 16
            };
            let p3: int = if x.has_full_directory_index {
                p2 + 40
            } else {
                p2 + 4
            };
            let p4: int = p3 + 4 + x.encoded_pak_entries@.len();
            dec_v2_main(s, version) == Some((v2_main_view(x), p4 + 4 + pf))
        }),
{
    let p2: int = if x.has_path_hash_index {
        p0 + 52
    } else {
        p0 + 16
    };
    let p3: int = if x.has_full_directory_index {
        p2 + 40
    } else {
        p2 + 4
    };
    let p4: int = p3 + 4 + x.encoded_pak_entries@.len();
    let parsed = dec_v2_main(s, version);
    assert(parsed is Some);
    assert(parsed->Some_0.0 =~= v2_main_view(x));
}


/// Reads the length-prefixed compact blob and the full-form entry list.
fn de_blob_files(r: &mut ArchiveReader, version: PakVersion) -> (res: Result<
    (Vec<u8>, Vec<PakEntry>),
    PakError,
>)
    requires
        old(r).wf(),
    ensures
        final(r).wf(),
        final(r).data@ == old(r).data@,
        match res {
            Ok(t) => ({
                let s = old(r).remaining();
                let bl = t.0@.len() as int;
                &&& dec_u32(s) == Some((t.0@.len() as u32, 4int))
                &&& t.0@.len() <= u32::MAX
                &&& s.len() >= 4 + bl
                &&& t.0@ == s.subrange(4, 4 + bl)
                &&& dec_u32(s.skip(4 + bl)) == Some((t.1@.len() as u32, 4int))
                &&& t.1@.len() <= u32::MAX
                &&& dec_files_list(s.skip(8 + bl), t.1@.len() as nat, version) == Some(
                    (t.1@.map(|j: int, e: PakEntry| e@), final(r).pos - old(r).pos - 8 - bl),
                )
                &&& final(r).pos >= old(r).pos + 8 + bl
            }),
            Err(e) => (e == PakError::Eof || e == PakError::Other) && blob_files_fails(
                old(r).remaining(),
                version,
            ),
        },
{
    let ghost s = old(r).remaining();
    let ghost pg = r.pos as int;
    let blob_len = match r.de_u32() {
        Ok(x) => x,
        Err(e) => { return Err(e) },
    };
    proof {
        assert(r.remaining() =~= s.skip(4));
    }
    let blob = match r.read_exact(blob_len as usize) {
        Ok(x) => x,
        Err(e) => { return Err(e) },
    };
    proof {
        assert(blob@ =~= s.subrange(4, 4 + blob_len as int));
        assert(r.remaining() =~= s.skip(4 + blob_len as int));
    }
    let nfiles = match r.de_u32() {
        Ok(x) => x,
        Err(e) => { return Err(e) },
    };
    proof {
        assert(r.remaining() =~= s.skip(8 + blob_len as int));
    }
    let files = match de_files_exec(r, nfiles, version) {
        Ok(fs) => fs,
        Err(e) => { return Err(e) },
    };
    Ok((blob, files))
}


/// The fixed head of the top-level V2 region: mount point, counts, flags and
/// the secondary-region triples.
#[verifier::rlimit(100)]
#[verifier::spinoff_prover]
fn de_v2_header(r: &mut ArchiveReader) -> (res: Result<
    (String, u32, u64, (bool, i64, i64, [u8; 20]), (bool, i64, i64, [u8; 20])),
    PakError,
>)
    requires
        old(r).wf(),
    ensures
        final(r).wf(),
        final(r).data@ == old(r).data@,
        match res {
            Ok(t) => ({
                let s = old(r).remaining();
                let p0 = dec_str(s)->Some_0.1;
                let p2: int = if t.3.0 {
                    p0 + 52
                } else {
                    p0 + 16
                };
                &&& dec_str(s) == Some((t.0@, p0))
                &&& dec_u32(s.skip(p0)) == Some((t.1, 4int))
                &&& dec_u64(s.skip(p0 + 4)) == Some((t.2, 8int))
                &&& dec_b32(s.skip(p0 + 12)) == Some((t.3.0, 4int))
                &&& (t.3.0 ==> s.len() >= p0 + 52 && dec_i64(s.skip(p0 + 16)) == Some(
                    (t.3.1, 8int),
                ) && dec_i64(s.skip(p0 + 24)) == Some((t.3.2, 8int)) && t.3.3@ == s.subrange(
                    p0 + 32,
                    p0 + 52,
                ))
                &&& (!t.3.0 ==> t.3.1 == 0 && t.3.2 == 0 && t.3.3@ =~= Seq::new(
                    20,
                    |i: int| 0u8,
                ))
                &&& dec_b32(s.skip(p2)) == Some((t.4.0, 4int))
                &&& (t.4.0 ==> s.len() >= p2 + 40 && dec_i64(s.skip(p2 + 4)) == Some(
                    (t.4.1, 8int),
                ) && dec_i64(s.skip(p2 + 12)) == Some((t.4.2, 8int)) && t.4.3@ == s.subrange(
                    p2 + 20,
                    p2 + 40,
                ))
                &&& (!t.4.0 ==> t.4.1 == 0 && t.4.2 == 0 && t.4.3@ =~= Seq::new(
                    20,
                    |i: int| 0u8,
                ))
                &&& final(r).pos == old(r).pos + (if t.4.0 {
                    p2 + 40
                } else {
                    p2 + 4
                })
            }),
            Err(e) => (e == PakError::Eof || e == PakError::Other) && (forall|v2: PakVersion|
                (#[trigger] dec_v2_main(old(r).remaining(), v2)) is None),
        },
{
    let ghost s = old(r).remaining();
    let ghost p0g = r.pos as int;
    let mount = match r.de_str() {
        Ok(x) => x,
        Err(e) => { return Err(e) },
    };
    let ghost p0 = r.pos - p0g;
    proof {
        assert(r.remaining() =~= s.skip(p0));
    }
    let num = match r.de_u32() {
        Ok(x) => x,
        Err(e) => { return Err(e) },
    };
    proof {
        assert(r.remaining() =~= s.skip(p0 + 4));
    }
    let seed = match r.de_u64() {
        Ok(x) => x,
        Err(e) => { return Err(e) },
    };
    proof {
        assert(r.remaining() =~= s.skip(p0 + 12));
    }
    let has_phi = match r.de_b32() {
        Ok(x) => x,
        Err(e) => { return Err(e) },
    };
    let mut phi = (has_phi, 0i64, 0i64, [0u8; 20]);
    if has_phi {
        proof {
            assert(r.remaining() =~= s.skip(p0 + 16));
        }
        let t = match de_triple(r) {
            Ok(x) => x,
            Err(e) => { return Err(e) },
        };
        phi = (true, t.0, t.1, t.2);
        proof {
            assert(s.skip(p0 + 16).skip(8) =~= s.skip(p0 + 24));
            assert(s.skip(p0 + 16).subrange(16, 36) =~= s.subrange(p0 + 32, p0 + 52));
        }
    }
    let ghost p2 = if has_phi {
        p0 + 52
    } else {
        p0 + 16
    };
    proof {
        assert(r.remaining() =~= s.skip(p2));
        assert(phi.3@ =~= Seq::new(20, |i: int| 0u8) || has_phi);
    }
    let has_fdi = match r.de_b32() {
        Ok(x) => x,
        Err(e) => { return Err(e) },
    };
    let mut fdi = (has_fdi, 0i64, 0i64, [0u8; 20]);
    if has_fdi {
        proof {
            assert(r.remaining() =~= s.skip(p2 + 4));
        }
        let t = match de_triple(r) {
            Ok(x) => x,
            Err(e) => { return Err(e) },
        };
        fdi = (true, t.0, t.1, t.2);
        proof {
            assert(s.skip(p2 + 4).skip(8) =~= s.skip(p2 + 12));
            assert(s.skip(p2 + 4).subrange(16, 36) =~= s.subrange(p2 + 20, p2 + 40));
        }
    }
    proof {
        if !has_phi {
            assert(phi.3@ =~= Seq::new(20, |i: int| 0u8));
        }
        if !has_fdi {
            assert(fdi.3@ =~= Seq::new(20, |i: int| 0u8));
        }
    }
    Ok((mount, num, seed, phi, fdi))
}


/// The whole PathHashIndex region round-trips: the hash map parses first and
/// the pruned directory tree parses right after it.
pub proof fn lemma_dec_enc_phi_region(x: PakIndexV2, rest: Seq<u8>)
    requires
        x.path_hash_index@.len() <= u32::MAX,
        x.pruned_directory_index@.len() <= u32::MAX,
        forall|i: int|
            0 <= i < x.pruned_directory_index@.len() ==> str_fits(
                (#[trigger] x.pruned_directory_index@[i]).0@,
            ) && x.pruned_directory_index@[i].1@.len() <= u32::MAX && (forall|j: int|
                0 <= j < x.pruned_directory_index@[i].1@.len() ==> str_fits(
                    (#[trigger] x.pruned_directory_index@[i].1@[j]).0@,
                )),
    ensures
        ({
            let s = enc_phi_region(x) + rest;
            let p = enc_phi_map(x.path_hash_index@).len() as int;
            &&& dec_phi_map(s) == Some((phi_view(x.path_hash_index@), p))
            &&& dec_dir_map(s.skip(p)) == Some(
                (
                    dir_view(x.pruned_directory_index@),
                    enc_dir_map(x.pruned_directory_index@).len() as int,
                ),
            )
            &&& enc_phi_region(x).len() == p + enc_dir_map(x.pruned_directory_index@).len()
        }),
{
    let s = enc_phi_region(x) + rest;
    let p = enc_phi_map(x.path_hash_index@).len() as int;
    lemma_dec_enc_phi_map(x.path_hash_index@, enc_dir_map(x.pruned_directory_index@) + rest);
    assert(s =~= enc_phi_map(x.path_hash_index@) + (enc_dir_map(x.pruned_directory_index@)
        + rest));
    lemma_dec_enc_dir_map(x.pruned_directory_index@, rest);
    assert(s.skip(p) =~= enc_dir_map(x.pruned_directory_index@) + rest);
}

// ---------------------------------------------------------------------------
// Failure propagation of the V2 parsers
// ---------------------------------------------------------------------------
/// A path-hash pair list whose pair `i` does not parse fails as a whole.
proof fn lemma_dec_phi_fail(region: Seq<u8>, i: nat, n: nat, q: int)
    requires
        i < n,
        dec_phi_pairs(region, i) is Some,
        q == dec_phi_pairs(region, i)->Some_0.1,
        dec_u64(region.skip(q)) is None || dec_i32(region.skip(q + 8)) is None,
    ensures
        dec_phi_pairs(region, n) is None,
    decreases i,
{
    if i == 0 {
        assert(region.skip(0) =~= region);
        assert(region.skip(0int + 8) =~= region.skip(8));
    } else {
        let sub = region.skip(12);
        let subpair = dec_phi_pairs(sub, (i - 1) as nat)->Some_0;
        lemma_dec_phi_pairs_bounds(sub, (i - 1) as nat);
        assert(sub.skip(q - 12) =~= region.skip(q));
        if dec_u64(region.skip(q)) is Some {
            assert(sub.skip(q - 12 + 8) =~= region.skip(q + 8));
        }
        lemma_dec_phi_fail(sub, (i - 1) as nat, (n - 1) as nat, q - 12);
    }
}

/// A name pair list whose pair `i` does not parse fails as a whole.
proof fn lemma_dec_name_fail(region: Seq<u8>, i: nat, n: nat, q: int)
    requires
        i < n,
        dec_name_pairs(region, i) is Some,
        q == dec_name_pairs(region, i)->Some_0.1,
        dec_str(region.skip(q)) is None || dec_i32(
            region.skip(q + dec_str(region.skip(q))->Some_0.1),
        ) is None,
    ensures
        dec_name_pairs(region, n) is None,
    decreases i,
{
    if i == 0 {
        assert(region.skip(0) =~= region);
        if dec_str(region) is Some {
            let p1 = dec_str(region)->Some_0.1;
            assert(region.skip(0int + p1) =~= region.skip(p1));
        }
    } else {
        let h = dec_str(region)->Some_0;
        let sub = region.skip(h.1 + 4);
        crate::pakindexv1::lemma_dec_str_bounds(region);
        lemma_dec_name_pairs_bounds(sub, (i - 1) as nat);
        assert(sub.skip(q - h.1 - 4) =~= region.skip(q));
        if dec_str(region.skip(q)) is Some {
            let p1 = dec_str(region.skip(q))->Some_0.1;
            assert(sub.skip(q - h.1 - 4 + p1) =~= region.skip(q + p1));
        }
        lemma_dec_name_fail(sub, (i - 1) as nat, (n - 1) as nat, q - h.1 - 4);
    }
}

/// A directory list whose entry `i` does not parse fails as a whole.
proof fn lemma_dec_dir_fail(region: Seq<u8>, i: nat, n: nat, q: int)
    requires
        i < n,
        dec_dir_pairs(region, i) is Some,
        q == dec_dir_pairs(region, i)->Some_0.1,
        dec_str(region.skip(q)) is None || dec_inner_map(
            region.skip(q + dec_str(region.skip(q))->Some_0.1),
        ) is None,
    ensures
        dec_dir_pairs(region, n) is None,
    decreases i,
{
    if i == 0 {
        assert(region.skip(0) =~= region);
        if dec_str(region) is Some {
            let p1 = dec_str(region)->Some_0.1;
            assert(region.skip(0int + p1) =~= region.skip(p1));
        }
    } else {
        let h = dec_str(region)->Some_0;
        let im = dec_inner_map(region.skip(h.1))->Some_0;
        let sub = region.skip(h.1 + im.1);
        crate::pakindexv1::lemma_dec_str_bounds(region);
        lemma_dec_inner_bounds(region.skip(h.1));
        lemma_dec_dir_pairs_bounds(sub, (i - 1) as nat);
        assert(sub.skip(q - h.1 - im.1) =~= region.skip(q));
        if dec_str(region.skip(q)) is Some {
            let p1 = dec_str(region.skip(q))->Some_0.1;
            assert(sub.skip(q - h.1 - im.1 + p1) =~= region.skip(q + p1));
        }
        lemma_dec_dir_fail(sub, (i - 1) as nat, (n - 1) as nat, q - h.1 - im.1);
    }
}

/// A full-form list whose entry `i` does not parse fails as a whole.
#[verifier::rlimit(100)]
#[verifier::spinoff_prover]
proof fn lemma_dec_files_fail(region: Seq<u8>, i: nat, n: nat, v: PakVersion, q: int)
    requires
        i < n,
        dec_files_list(region, i, v) is Some,
        q == dec_files_list(region, i, v)->Some_0.1,
        dec_entry(region.skip(q), v) is None,
    ensures
        dec_files_list(region, n, v) is None,
    decreases i,
{
    if i == 0 {
        assert(region.skip(0) =~= region);
    } else {
        let h = dec_entry(region, v)->Some_0;
        let sub = region.skip(h.1);
        lemma_dec_entry_bounds2(region, v);
        lemma_dec_files_bounds(sub, (i - 1) as nat, v);
        assert(sub.skip(q - h.1) =~= region.skip(q));
        lemma_dec_files_fail(sub, (i - 1) as nat, (n - 1) as nat, v, q - h.1);
    }
}

/// The blob-and-files tail of the top-level region fails to parse.
pub open spec fn blob_files_fails(t: Seq<u8>, v: PakVersion) -> bool {
    match dec_u32(t) {
        None => true,
        Some((bl, _)) => if t.len() < 4 + bl {
            true
        } else {
            match dec_u32(t.skip(4 + bl as int)) {
                None => true,
                Some((n, _)) => dec_files_list(t.skip(8 + bl as int), n as nat, v) is None,
            }
        },
    }
}

/// A failing tail fails the whole region parse, whatever the header said.
proof fn lemma_tail_none(
    s: Seq<u8>,
    v: PakVersion,
    mount: Seq<char>,
    num: u32,
    seed: u64,
    has_phi: bool,
    phi_off: i64,
    phi_size: i64,
    phi_hash: Seq<u8>,
    has_fdi: bool,
    fdi_off: i64,
    fdi_size: i64,
    fdi_hash: Seq<u8>,
    p: int,
)
    requires
        0 <= p <= s.len(),
        blob_files_fails(s.skip(p), v),
    ensures
        dec_v2_main_tail(
            s,
            v,
            mount,
            num,
            seed,
            has_phi,
            phi_off,
            phi_size,
            phi_hash,
            has_fdi,
            fdi_off,
            fdi_size,
            fdi_hash,
            p,
        ) is None,
{
    let t = s.skip(p);
    match dec_u32(t) {
        None => {},
        Some((bl, _)) => {
            if t.len() >= 4 + bl {
                assert(s.skip(p + 4 + bl as int) =~= t.skip(4 + bl as int));
                match dec_u32(t.skip(4 + bl as int)) {
                    None => {},
                    Some((n, _)) => {
                        assert(s.skip(p + 4 + bl as int + 4) =~= t.skip(8 + bl as int));
                    },
                }
            }
        },
    }
}

/// With the header fields parsed, the whole region parse reduces to the tail.
#[verifier::rlimit(100)]
#[verifier::spinoff_prover]
proof fn lemma_v2_main_reduces(
    s: Seq<u8>,
    v: PakVersion,
    mount: Seq<char>,
    p0: int,
    num: u32,
    seed: u64,
    has_phi: bool,
    phi_off: i64,
    phi_size: i64,
    phi_hash: Seq<u8>,
    has_fdi: bool,
    fdi_off: i64,
    fdi_size: i64,
    fdi_hash: Seq<u8>,
)
    requires
        dec_str(s) == Some((mount, p0)),
        dec_u32(s.skip(p0)) == Some((num, 4int)),
        dec_u64(s.skip(p0 + 4)) == Some((seed, 8int)),
        dec_b32(s.skip(p0 + 12)) == Some((has_phi, 4int)),
        has_phi ==> s.len() >= p0 + 52 && dec_i64(s.skip(p0 + 16)) == Some((phi_off, 8int))
            && dec_i64(s.skip(p0 + 24)) == Some((phi_size, 8int)) && phi_hash == s.subrange(
            p0 + 32,
            p0 + 52,
        ),
        !has_phi ==> phi_off == 0 && phi_size == 0 && phi_hash =~= Seq::new(20, |i: int| 0u8),
        ({
            let p2: int = if has_phi {
                p0 + 52
            } else {
                p0 + 16
            };
            &&& dec_b32(s.skip(p2)) == Some((has_fdi, 4int))
            &&& (has_fdi ==> s.len() >= p2 + 40 && dec_i64(s.skip(p2 + 4)) == Some(
                (fdi_off, 8int),
            ) && dec_i64(s.skip(p2 + 12)) == Some((fdi_size, 8int)) && fdi_hash == s.subrange(
                p2 + 20,
                p2 + 40,
            ))
            &&& (!has_fdi ==> fdi_off == 0 && fdi_size == 0 && fdi_hash =~= Seq::new(
                20,
                |i: int| 0u8,
            ))
        }),
    ensures
        ({
            let p2: int = if has_phi {
                p0 + 52
            } else {
                p0 + 16
            };
            let p3: int = if has_fdi {
                p2 + 40
            } else {
                p2 + 4
            };
            dec_v2_main(s, v) == dec_v2_main_tail(
                s,
                v,
                mount,
                num,
                seed,
                has_phi,
                phi_off,
                phi_size,
                phi_hash,
                has_fdi,
                fdi_off,
                fdi_size,
                fdi_hash,
                p3,
            )
        }),
{
}

/// The blob offsets referenced by a path-hash map, in map order.
pub open spec fn offset_locs(m: Seq<(u64, RawPakEntryLocation)>) -> Seq<usize>
    decreases m.len(),
{
    if m.len() == 0 {
        Seq::empty()
    } else {
        (match m[0].1.spec_get() {
            PakEntryLocation::Offset(o) => seq![o],
            _ => Seq::<usize>::empty(),
        }) + offset_locs(m.drop_first())
    }
}

proof fn lemma_offset_locs_push(m: Seq<(u64, RawPakEntryLocation)>, p: (u64, RawPakEntryLocation))
    ensures
        offset_locs(m.push(p)) == offset_locs(m) + (match p.1.spec_get() {
            PakEntryLocation::Offset(o) => seq![o],
            _ => Seq::<usize>::empty(),
        }),
    decreases m.len(),
{
    let tailp = (match p.1.spec_get() {
        PakEntryLocation::Offset(o) => seq![o],
        _ => Seq::<usize>::empty(),
    });
    if m.len() == 0 {
        assert(m.push(p)[0] == p);
        assert(m =~= Seq::<(u64, RawPakEntryLocation)>::empty());
        assert(m.push(p).drop_first() =~= m);
        assert(offset_locs(m) =~= Seq::<usize>::empty());
        assert(offset_locs(m.push(p)) =~= offset_locs(m) + tailp);
    } else {
        assert(m.push(p).drop_first() =~= m.drop_first().push(p));
        assert(m.push(p)[0] == m[0]);
        lemma_offset_locs_push(m.drop_first(), p);
        assert(offset_locs(m.push(p)) =~= offset_locs(m) + tailp);
    }
}

/// The offsets of a map split at `i`.
proof fn lemma_offset_locs_split(m: Seq<(u64, RawPakEntryLocation)>, i: int)
    requires
        0 <= i <= m.len(),
    ensures
        offset_locs(m) == offset_locs(m.take(i)) + offset_locs(m.skip(i)),
    decreases i,
{
    if i == 0 {
        assert(m.take(0) =~= Seq::<(u64, RawPakEntryLocation)>::empty());
        assert(m.skip(0) =~= m);
        assert(offset_locs(m.take(0)) =~= Seq::<usize>::empty());
        assert(offset_locs(m) =~= offset_locs(m.take(0)) + offset_locs(m.skip(0)));
    } else {
        lemma_offset_locs_split(m.drop_first(), i - 1);
        assert(m.drop_first().take(i - 1) =~= m.take(i).drop_first());
        assert(m.drop_first().skip(i - 1) =~= m.skip(i));
        assert(m.take(i)[0] == m[0]);
        assert(m.take(i).len() == i);
        assert(offset_locs(m.take(i)) == (match m[0].1.spec_get() {
            PakEntryLocation::Offset(o) => seq![o],
            _ => Seq::<usize>::empty(),
        }) + offset_locs(m.take(i).drop_first()));
        assert(offset_locs(m) =~= offset_locs(m.take(i)) + offset_locs(m.skip(i)));
    }
}



/// A location points at this entry value: a blob offset resolved through the
/// decoded cache, or an index into the full-form list; deleted points nowhere.
pub open spec fn loc_entry_ok(
    loc: RawPakEntryLocation,
    ev: PakEntryV,
    cache: Seq<(usize, PakEntry)>,
    files: Seq<PakEntry>,
) -> bool {
    match loc.spec_get() {
        PakEntryLocation::Offset(o) => cache_has(cache, o, ev),
        PakEntryLocation::Index(ix) => ix < files.len() && ev == files[ix as int]@,
        PakEntryLocation::Deleted => false,
    }
}

/// The decoded cache holds an entry with this blob offset and value.
pub open spec fn cache_has(c: Seq<(usize, PakEntry)>, o: usize, ev: PakEntryV) -> bool {
    exists|i: int| 0 <= i < c.len() && (#[trigger] c[i]).0 == o && c[i].1@ == ev
}

/// No cache entry carries this blob offset.
pub open spec fn cache_misses(c: Seq<(usize, PakEntry)>, o: usize) -> bool {
    forall|i: int| 0 <= i < c.len() ==> (#[trigger] c[i]).0 != o
}

// ---------------------------------------------------------------------------
// Enumeration views
// ---------------------------------------------------------------------------
/// The path-hash pairs that point at an entry: every pair except the deleted.
pub open spec fn live_pairs(m: Seq<(u64, RawPakEntryLocation)>) -> Seq<(u64, RawPakEntryLocation)>
    decreases m.len(),
{
    if m.len() == 0 {
        Seq::empty()
    } else {
        (if m[0].1.spec_get() is Deleted {
            Seq::<(u64, RawPakEntryLocation)>::empty()
        } else {
            seq![m[0]]
        }) + live_pairs(m.drop_first())
    }
}

proof fn lemma_live_pairs_push(m: Seq<(u64, RawPakEntryLocation)>, p: (u64, RawPakEntryLocation))
    ensures
        live_pairs(m.push(p)) == live_pairs(m) + (if p.1.spec_get() is Deleted {
            Seq::<(u64, RawPakEntryLocation)>::empty()
        } else {
            seq![p]
        }),
    decreases m.len(),
{
    let tailp = (if p.1.spec_get() is Deleted {
        Seq::<(u64, RawPakEntryLocation)>::empty()
    } else {
        seq![p]
    });
    if m.len() == 0 {
        assert(m.push(p)[0] == p);
        assert(m =~= Seq::<(u64, RawPakEntryLocation)>::empty());
        assert(m.push(p).drop_first() =~= m);
        assert(live_pairs(m) =~= Seq::<(u64, RawPakEntryLocation)>::empty());
        assert(live_pairs(m.push(p)) =~= live_pairs(m) + tailp);
    } else {
        assert(m.push(p).drop_first() =~= m.drop_first().push(p));
        assert(m.push(p)[0] == m[0]);
        lemma_live_pairs_push(m.drop_first(), p);
        assert(live_pairs(m.push(p)) =~= live_pairs(m) + tailp);
    }
}

/// One flattened directory: (directory, name, location) per stored name.
pub open spec fn flat_inner(dir: Seq<char>, m: Seq<(String, RawPakEntryLocation)>) -> Seq<
    (Seq<char>, Seq<char>, PakEntryLocation),
>
    decreases m.len(),
{
    if m.len() == 0 {
        Seq::empty()
    } else {
        seq![(dir, m[0].0@, m[0].1.spec_get())] + flat_inner(dir, m.drop_first())
    }
}

proof fn lemma_flat_inner_push(
    dir: Seq<char>,
    m: Seq<(String, RawPakEntryLocation)>,
    p: (String, RawPakEntryLocation),
)
    ensures
        flat_inner(dir, m.push(p)) == flat_inner(dir, m) + seq![(dir, p.0@, p.1.spec_get())],
    decreases m.len(),
{
    if m.len() == 0 {
        assert(m.push(p)[0] == p);
        assert(m =~= Seq::<(String, RawPakEntryLocation)>::empty());
        assert(m.push(p).drop_first() =~= m);
        assert(flat_inner(dir, m) =~= Seq::<(Seq<char>, Seq<char>, PakEntryLocation)>::empty());
        assert(flat_inner(dir, m.push(p)) =~= flat_inner(dir, m) + seq![
            (dir, p.0@, p.1.spec_get()),
        ]);
    } else {
        assert(m.push(p).drop_first() =~= m.drop_first().push(p));
        assert(m.push(p)[0] == m[0]);
        lemma_flat_inner_push(dir, m.drop_first(), p);
        assert(flat_inner(dir, m.push(p)) =~= flat_inner(dir, m) + seq![
            (dir, p.0@, p.1.spec_get()),
        ]);
    }
}

/// A directory tree flattened to (directory, name, location), directories in
/// stored order, names in stored order within each.
pub open spec fn flat_dir(d: Seq<(String, Vec<(String, RawPakEntryLocation)>)>) -> Seq<
    (Seq<char>, Seq<char>, PakEntryLocation),
>
    decreases d.len(),
{
    if d.len() == 0 {
        Seq::empty()
    } else {
        flat_inner(d[0].0@, d[0].1@) + flat_dir(d.drop_first())
    }
}

proof fn lemma_flat_dir_push(
    d: Seq<(String, Vec<(String, RawPakEntryLocation)>)>,
    p: (String, Vec<(String, RawPakEntryLocation)>),
)
    ensures
        flat_dir(d.push(p)) == flat_dir(d) + flat_inner(p.0@, p.1@),
    decreases d.len(),
{
    if d.len() == 0 {
        assert(d.push(p)[0] == p);
        assert(d =~= Seq::<(String, Vec<(String, RawPakEntryLocation)>)>::empty());
        assert(d.push(p).drop_first() =~= d);
        assert(flat_dir(d) =~= Seq::<(Seq<char>, Seq<char>, PakEntryLocation)>::empty());
        assert(flat_dir(d.push(p)) =~= flat_dir(d) + flat_inner(p.0@, p.1@));
    } else {
        assert(d.push(p).drop_first() =~= d.drop_first().push(p));
        assert(d.push(p)[0] == d[0]);
        lemma_flat_dir_push(d.drop_first(), p);
        assert(flat_dir(d.push(p)) =~= flat_dir(d) + flat_inner(p.0@, p.1@));
    }
}

/// The live pairs of a map split at `i`.
proof fn lemma_live_pairs_split(m: Seq<(u64, RawPakEntryLocation)>, i: int)
    requires
        0 <= i <= m.len(),
    ensures
        live_pairs(m) == live_pairs(m.take(i)) + live_pairs(m.skip(i)),
    decreases i,
{
    if i == 0 {
        assert(m.take(0) =~= Seq::<(u64, RawPakEntryLocation)>::empty());
        assert(m.skip(0) =~= m);
        assert(live_pairs(m.take(0)) =~= Seq::<(u64, RawPakEntryLocation)>::empty());
        assert(live_pairs(m) =~= live_pairs(m.take(0)) + live_pairs(m.skip(0)));
    } else {
        lemma_live_pairs_split(m.drop_first(), i - 1);
        assert(m.drop_first().take(i - 1) =~= m.take(i).drop_first());
        assert(m.drop_first().skip(i - 1) =~= m.skip(i));
        assert(m.take(i)[0] == m[0]);
        assert(m.take(i).len() == i);
        assert(live_pairs(m.take(i)) == (if m[0].1.spec_get() is Deleted {
            Seq::<(u64, RawPakEntryLocation)>::empty()
        } else {
            seq![m[0]]
        }) + live_pairs(m.take(i).drop_first()));
        assert(live_pairs(m) =~= live_pairs(m.take(i)) + live_pairs(m.skip(i)));
    }
}


/// Every listed blob offset comes from some map pair with that location.
pub proof fn lemma_offset_locs_member(m: Seq<(u64, RawPakEntryLocation)>, j: int)
    requires
        0 <= j < offset_locs(m).len(),
    ensures
        exists|k: int|
            0 <= k < m.len() && (#[trigger] m[k]).1.spec_get() == PakEntryLocation::Offset(
                offset_locs(m)[j],
            ),
    decreases m.len(),
{
    if m.len() > 0 {
        match m[0].1.spec_get() {
            PakEntryLocation::Offset(o) => {
                if j == 0 {
                    assert(m[0].1.spec_get() == PakEntryLocation::Offset(offset_locs(m)[0]));
                } else {
                    lemma_offset_locs_member(m.drop_first(), j - 1);
                    let k = choose|k: int|
                        0 <= k < m.drop_first().len() && (#[trigger] m.drop_first()[k]).1.spec_get()
                            == PakEntryLocation::Offset(offset_locs(m.drop_first())[j - 1]);
                    assert(m[k + 1].1.spec_get() == PakEntryLocation::Offset(offset_locs(m)[j]));
                }
            },
            _ => {
                lemma_offset_locs_member(m.drop_first(), j);
                let k = choose|k: int|
                    0 <= k < m.drop_first().len() && (#[trigger] m.drop_first()[k]).1.spec_get()
                        == PakEntryLocation::Offset(offset_locs(m.drop_first())[j]);
                assert(m[k + 1].1.spec_get() == PakEntryLocation::Offset(offset_locs(m)[j]));
            },
        }
    }
}

// ---------------------------------------------------------------------------
// What rehoming promises per entry
// ---------------------------------------------------------------------------
/// A rehomed name reaches its own entry: through the path-hash map under the
/// seeded hash of the lowercased name, and through the directory tree under
/// the name split at its last separator; both roads give the same location,
/// and the location resolves to the entry value (cached from the blob, or in
/// the full-form list).
pub open spec fn rehomed_pair_ok(
    v2: PakIndexV2,
    name: Seq<char>,
    ev: PakEntryV,
    version: PakVersion,
) -> bool {
    let h = PakIndexV2::spec_path_hash(name, v2.path_hash_seed, version);
    let b = str_bytes(name);
    let ls = last_slash(name);
    &&& has_slash(name)
    &&& phi_has_key(v2.path_hash_index@, h)
    &&& loc_entry_ok(
        phi_at(v2.path_hash_index@, h),
        ev,
        v2.decoded_pak_entries@,
        v2.files@,
    )
    &&& (match dir_find(v2.full_directory_index@, b.subrange(0, ls)) {
        Some(sub) => match name_find(sub, b.subrange(ls + 1, b.len() as int)) {
            Some(rl) => rl.spec_get() == phi_at(v2.path_hash_index@, h).spec_get()
                && loc_entry_ok(rl, ev, v2.decoded_pak_entries@, v2.files@),
            None => false,
        },
        None => false,
    })
}

/// Growing the cache and list by one entry keeps every resolution.
proof fn lemma_loc_entry_ok_grow(
    rl: RawPakEntryLocation,
    ev: PakEntryV,
    c0: Seq<(usize, PakEntry)>,
    c1: Seq<(usize, PakEntry)>,
    f0: Seq<PakEntry>,
    f1: Seq<PakEntry>,
)
    requires
        loc_entry_ok(rl, ev, c0, f0),
        c1 == c0 || exists|p: (usize, PakEntry)| c1 == c0.push(p),
        f1 == f0 || exists|e2: PakEntry| f1 == f0.push(e2),
    ensures
        loc_entry_ok(rl, ev, c1, f1),
{
    match rl.spec_get() {
        PakEntryLocation::Offset(o) => {
            let k = choose|k: int| 0 <= k < c0.len() && (#[trigger] c0[k]).0 == o && c0[k].1@ == ev;
            assert(c1[k] == c0[k]);
        },
        PakEntryLocation::Index(ix) => {
            assert(f1[ix as int] == f0[ix as int]);
        },
        PakEntryLocation::Deleted => {},
    }
}


/// A byte sequence with a separator has a last one.
proof fn lemma_last_slash_exists(b: Seq<u8>)
    requires
        exists|i: int| 0 <= i < b.len() && b[i] == 47u8,
    ensures
        exists|i: int|
            0 <= i < b.len() && b[i] == 47u8 && (forall|j: int|
                i < j < b.len() ==> b[j] != 47u8),
    decreases b.len(),
{
    if b[b.len() - 1] == 47u8 {
        assert(0 <= b.len() - 1 < b.len() && b[b.len() - 1] == 47u8 && (forall|j: int|
            b.len() - 1 < j < b.len() ==> b[j] != 47u8));
    } else {
        let w = choose|i: int| 0 <= i < b.len() && b[i] == 47u8;
        assert(w < b.len() - 1);
        let p = b.drop_last();
        assert(p[w] == 47u8);
        lemma_last_slash_exists(p);
        let i = choose|i: int|
            0 <= i < p.len() && p[i] == 47u8 && (forall|j: int| i < j < p.len() ==> p[j] != 47u8);
        assert(b[i] == 47u8);
        assert forall|j: int| i < j < b.len() implies b[j] != 47u8 by {
            if j < b.len() - 1 {
                assert(p[j] == b[j]);
            }
        }
        assert(0 <= i < b.len() && b[i] == 47u8 && (forall|j: int|
            i < j < b.len() ==> b[j] != 47u8));
    }
}

/// The last separator of a slashed name is a genuine position.
pub proof fn lemma_last_slash_props(name: Seq<char>)
    requires
        has_slash(name),
    ensures
        0 <= last_slash(name) < str_bytes(name).len(),
        str_bytes(name)[last_slash(name)] == 47u8,
        forall|j: int|
            last_slash(name) < j < str_bytes(name).len() ==> str_bytes(name)[j] != 47u8,
{
    lemma_last_slash_exists(str_bytes(name));
}

/// Two names whose directory and leaf byte keys coincide are the same name.
proof fn lemma_split_injective(a: Seq<char>, b: Seq<char>)
    requires
        has_slash(a),
        has_slash(b),
        str_bytes(a).subrange(0, last_slash(a)) == str_bytes(b).subrange(0, last_slash(b)),
        str_bytes(a).subrange(last_slash(a) + 1, str_bytes(a).len() as int) == str_bytes(
            b,
        ).subrange(last_slash(b) + 1, str_bytes(b).len() as int),
    ensures
        a == b,
{
    lemma_last_slash_props(a);
    lemma_last_slash_props(b);
    let ba = str_bytes(a);
    let bb = str_bytes(b);
    let la = last_slash(a);
    let lb = last_slash(b);
    assert(ba =~= ba.subrange(0, la) + seq![47u8] + ba.subrange(la + 1, ba.len() as int));
    assert(bb =~= bb.subrange(0, lb) + seq![47u8] + bb.subrange(lb + 1, bb.len() as int));
    assert(la == lb);
    assert(ba =~= bb);
    vstd::utf8::encode_utf8_decode_utf8(a);
    vstd::utf8::encode_utf8_decode_utf8(b);
}

/// Adding a fresh name keeps every earlier name's reachability.
#[verifier::rlimit(100)]
#[verifier::spinoff_prover]
pub proof fn lemma_rehomed_preserved(
    v2b: PakIndexV2,
    v2: PakIndexV2,
    namej: Seq<char>,
    evj: PakEntryV,
    namei: Seq<char>,
    entryi: PakEntry,
    version: PakVersion,
)
    requires
        rehomed_pair_ok(v2b, namej, evj, version),
        add_core(v2b, v2, entryi, namei, version),
        v2b.has_path_hash_index,
        v2b.has_full_directory_index,
        v2.path_hash_seed == v2b.path_hash_seed,
        has_slash(namei),
        PakIndexV2::spec_path_hash(namej, v2b.path_hash_seed, version)
            != PakIndexV2::spec_path_hash(namei, v2b.path_hash_seed, version),
        ({
            let bi = str_bytes(namei);
            let li = last_slash(namei);
            &&& (match dir_find(v2.full_directory_index@, bi.subrange(0, li)) {
                Some(sub) => name_find(sub, bi.subrange(li + 1, bi.len() as int)) is Some,
                None => false,
            })
            &&& (forall|dk: Seq<u8>|
                dk != bi.subrange(0, li) ==> dir_find(v2.full_directory_index@, dk) == dir_find(
                    v2b.full_directory_index@,
                    dk,
                ))
            &&& (forall|lk: Seq<u8>|
                lk != bi.subrange(li + 1, bi.len() as int) ==> name_find(
                    dir_find(v2.full_directory_index@, bi.subrange(0, li))->Some_0,
                    lk,
                ) == (match dir_find(v2b.full_directory_index@, bi.subrange(0, li)) {
                    Some(s0) => name_find(s0, lk),
                    None => None::<RawPakEntryLocation>,
                }))
        }),
    ensures
        rehomed_pair_ok(v2, namej, evj, version),
{
    let seed = v2b.path_hash_seed;
    let hj = PakIndexV2::spec_path_hash(namej, seed, version);
    let hi = PakIndexV2::spec_path_hash(namei, seed, version);
    assert(phi_has_key(v2.path_hash_index@, hj));
    assert(phi_at(v2.path_hash_index@, hj) == phi_at(v2b.path_hash_index@, hj));
    lemma_loc_entry_ok_grow(
        phi_at(v2b.path_hash_index@, hj),
        evj,
        v2b.decoded_pak_entries@,
        v2.decoded_pak_entries@,
        v2b.files@,
        v2.files@,
    );
    let bj = str_bytes(namej);
    let lj = last_slash(namej);
    let bi = str_bytes(namei);
    let li = last_slash(namei);
    if bj.subrange(0, lj) == bi.subrange(0, li) {
        if bj.subrange(lj + 1, bj.len() as int) == bi.subrange(li + 1, bi.len() as int) {
            lemma_split_injective(namej, namei);
            assert(false);
        }
        let sub0 = dir_find(v2b.full_directory_index@, bj.subrange(0, lj))->Some_0;
        let rl = name_find(sub0, bj.subrange(lj + 1, bj.len() as int))->Some_0;
        assert(name_find(
            dir_find(v2.full_directory_index@, bj.subrange(0, lj))->Some_0,
            bj.subrange(lj + 1, bj.len() as int),
        ) == Some(rl));
        lemma_loc_entry_ok_grow(
            rl,
            evj,
            v2b.decoded_pak_entries@,
            v2.decoded_pak_entries@,
            v2b.files@,
            v2.files@,
        );
    } else {
        assert(dir_find(v2.full_directory_index@, bj.subrange(0, lj)) == dir_find(
            v2b.full_directory_index@,
            bj.subrange(0, lj),
        ));
        let sub0 = dir_find(v2b.full_directory_index@, bj.subrange(0, lj))->Some_0;
        let rl = name_find(sub0, bj.subrange(lj + 1, bj.len() as int))->Some_0;
        lemma_loc_entry_ok_grow(
            rl,
            evj,
            v2b.decoded_pak_entries@,
            v2.decoded_pak_entries@,
            v2b.files@,
            v2.files@,
        );
    }
}

/// Out-of-order keys inside a suffix are out-of-order keys of the whole.
pub proof fn lemma_wire_unsorted_lift(s: Seq<u8>, base: int, t: Seq<u8>)
    requires
        0 <= base <= s.len(),
        t == s.skip(base),
        region_wire_unsorted(t),
    ensures
        region_wire_unsorted(s),
{
    if exists|q2: int, j: int|
        #![trigger dec_phi_pairs(t.skip(q2), j as nat)]
        0 <= q2 <= t.len() && 2 <= j && dec_phi_pairs(t.skip(q2), j as nat) is Some && ({
            let p = dec_phi_pairs(t.skip(q2), j as nat)->Some_0.0;
            p[j - 2].0 >= p[j - 1].0
        }) {
        let (q2, j) = choose|q2: int, j: int|
            #![trigger dec_phi_pairs(t.skip(q2), j as nat)]
            0 <= q2 <= t.len() && 2 <= j && dec_phi_pairs(t.skip(q2), j as nat) is Some && ({
                let p = dec_phi_pairs(t.skip(q2), j as nat)->Some_0.0;
                p[j - 2].0 >= p[j - 1].0
            });
        assert(s.skip(base + q2) =~= t.skip(q2));
        assert(dec_phi_pairs(s.skip(base + q2), j as nat) is Some);
    } else if exists|q2: int, j: int|
        #![trigger dec_name_pairs(t.skip(q2), j as nat)]
        0 <= q2 <= t.len() && 2 <= j && dec_name_pairs(t.skip(q2), j as nat) is Some && ({
            let p = dec_name_pairs(t.skip(q2), j as nat)->Some_0.0;
            !str_lt(p[j - 2].0, p[j - 1].0)
        }) {
        let (q2, j) = choose|q2: int, j: int|
            #![trigger dec_name_pairs(t.skip(q2), j as nat)]
            0 <= q2 <= t.len() && 2 <= j && dec_name_pairs(t.skip(q2), j as nat) is Some && ({
                let p = dec_name_pairs(t.skip(q2), j as nat)->Some_0.0;
                !str_lt(p[j - 2].0, p[j - 1].0)
            });
        assert(s.skip(base + q2) =~= t.skip(q2));
        assert(dec_name_pairs(s.skip(base + q2), j as nat) is Some);
    } else {
        let (q2, j) = choose|q2: int, j: int|
            #![trigger dec_dir_pairs(t.skip(q2), j as nat)]
            0 <= q2 <= t.len() && 2 <= j && dec_dir_pairs(t.skip(q2), j as nat) is Some && ({
                let p = dec_dir_pairs(t.skip(q2), j as nat)->Some_0.0;
                !str_lt(p[j - 2].0, p[j - 1].0)
            });
        assert(s.skip(base + q2) =~= t.skip(q2));
        assert(dec_dir_pairs(s.skip(base + q2), j as nat) is Some);
    }
}

} // verus!
