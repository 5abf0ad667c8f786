//! The entry codec: the full on-wire form of a file entry, with its version
//! gates. Entries describe one stored asset: offsets, sizes, SHA1, compression
//! descriptors and flags.

use vstd::prelude::*;

use crate::archive::{enc_i32, enc_i64, enc_u32, enc_u64, enc_u8, dec_i32, dec_i64, dec_u32, dec_u64, dec_u8, lemma_dec_i32, lemma_dec_i64, lemma_dec_u32, lemma_dec_u64, lemma_dec_u8, ArchiveReader, ArchiveWriter};
use crate::{PakError, PakVersion};

verus! {

/// Entry flag: the payload bytes are AES-encrypted.
pub const FLAG_ENCRYPTED: u8 = 0x01;

/// Entry flag: the entry is a delete record.
pub const FLAG_DELETED: u8 = 0x02;

/// One compression block: serialized start and end offsets.
#[derive(Debug, Default, Clone, Copy, PartialEq, Eq, Structural)]
pub struct PakCompressedBlock {
    pub compressed_start: i64,
    pub compressed_end: i64,
}

/// A descriptor for one stored asset.
#[derive(Debug, Clone)]
pub struct PakEntry {
    /// Offset into the pak file where the payload is stored.
    pub offset: u64,
    /// Serialized payload size.
    pub size: u64,
    /// Uncompressed payload size.
    pub uncompressed_size: u64,
    /// SHA1 of the serialized payload.
    pub hash: [u8; 20],
    /// Blocks that describe how to decompress the payload.
    pub compression_blocks: Vec<PakCompressedBlock>,
    /// Size of a compressed block in the file.
    pub compression_block_size: u32,
    /// Index into the trailer's compression-method table; 0 means none.
    pub compression_method_index: u32,
    /// Entry flags.
    pub flags: u8,
}

/// The mathematical value of an entry.
#[verifier::ext_equal]
pub ghost struct PakEntryV {
    pub offset: u64,
    pub size: u64,
    pub uncompressed_size: u64,
    pub hash: Seq<u8>,
    pub compression_blocks: Seq<PakCompressedBlock>,
    pub compression_block_size: u32,
    pub compression_method_index: u32,
    pub flags: u8,
}

impl View for PakEntry {
    type V = PakEntryV;

    open spec fn view(&self) -> PakEntryV {
        PakEntryV {
            offset: self.offset,
            size: self.size,
            uncompressed_size: self.uncompressed_size,
            hash: self.hash@,
            compression_blocks: self.compression_blocks@,
            compression_block_size: self.compression_block_size,
            compression_method_index: self.compression_method_index,
            flags: self.flags,
        }
    }
}

impl PakEntryV {
    pub open spec fn spec_is_encrypted(self) -> bool {
        self.flags & FLAG_ENCRYPTED == FLAG_ENCRYPTED
    }

    pub open spec fn spec_is_deleted(self) -> bool {
        self.flags & FLAG_DELETED == FLAG_DELETED
    }
}

impl PakEntry {
    pub fn new() -> (r: Self)
        ensures
            r@ == (PakEntryV {
                offset: 0,
                size: 0,
                uncompressed_size: 0,
                hash: Seq::new(20, |i: int| 0u8),
                compression_blocks: Seq::<PakCompressedBlock>::empty(),
                compression_block_size: 0,
                compression_method_index: 0,
                flags: 0,
            }),
    {
        let r = PakEntry {
            offset: 0,
            size: 0,
            uncompressed_size: 0,
            hash: [0u8; 20],
            compression_blocks: Vec::new(),
            compression_block_size: 0,
            compression_method_index: 0,
            flags: 0,
        };
        proof {
            assert(r.hash@ =~= Seq::new(20, |i: int| 0u8));
            assert(r.compression_blocks@ =~= Seq::<PakCompressedBlock>::empty());
        }
        r
    }

    pub fn is_encrypted(&self) -> (r: bool)
        ensures
            r == self@.spec_is_encrypted(),
    {
        (self.flags & FLAG_ENCRYPTED) == FLAG_ENCRYPTED
    }

    pub fn is_deleted(&self) -> (r: bool)
        ensures
            r == self@.spec_is_deleted(),
    {
        (self.flags & FLAG_DELETED) == FLAG_DELETED
    }
}

// ---------------------------------------------------------------------------
// Wire form of the block list
// ---------------------------------------------------------------------------
pub open spec fn enc_block(b: PakCompressedBlock) -> Seq<u8> {
    enc_i64(b.compressed_start) + enc_i64(b.compressed_end)
}

pub open spec fn enc_blocks(bs: Seq<PakCompressedBlock>) -> Seq<u8>
    decreases bs.len(),
{
    if bs.len() == 0 {
        Seq::empty()
    } else {
        enc_block(bs[0]) + enc_blocks(bs.drop_first())
    }
}

/// Blocks parse as 16-byte records; the count is given by the caller.
pub open spec fn dec_blocks(s: Seq<u8>, n: nat) -> Option<(Seq<PakCompressedBlock>, int)> {
    if s.len() >= 16 * n {
        Some(
            (
                Seq::new(
                    n,
                    |i: int|
                        PakCompressedBlock {
                            compressed_start: spec_u64_from_le(s.subrange(16 * i, 16 * i + 8)) as i64,
                            compressed_end: spec_u64_from_le(
                                s.subrange(16 * i + 8, 16 * i + 16),
                            ) as i64,
                        },
                ),
                16 * n as int,
            ),
        )
    } else {
        None
    }
}

/// Short alias so block parsing reads as the rest of the module does.
pub open spec fn spec_u64_from_le(s: Seq<u8>) -> u64 {
    vstd::bytes::spec_u64_from_le_bytes(s)
}

pub proof fn lemma_enc_blocks_len(bs: Seq<PakCompressedBlock>)
    ensures
        enc_blocks(bs).len() == 16 * bs.len(),
    decreases bs.len(),
{
    vstd::bytes::lemma_auto_spec_u64_to_from_le_bytes();
    if bs.len() > 0 {
        lemma_enc_blocks_len(bs.drop_first());
    }
}

pub proof fn lemma_enc_blocks_index(bs: Seq<PakCompressedBlock>, i: int)
    requires
        0 <= i < bs.len(),
    ensures
        enc_blocks(bs).subrange(16 * i, 16 * i + 8) == enc_i64(bs[i].compressed_start),
        enc_blocks(bs).subrange(16 * i + 8, 16 * i + 16) == enc_i64(bs[i].compressed_end),
    decreases bs.len(),
{
    vstd::bytes::lemma_auto_spec_u64_to_from_le_bytes();
    lemma_enc_blocks_len(bs);
    lemma_enc_blocks_len(bs.drop_first());
    if i == 0 {
        assert(enc_blocks(bs).subrange(0, 8) =~= enc_i64(bs[0].compressed_start));
        assert(enc_blocks(bs).subrange(8, 16) =~= enc_i64(bs[0].compressed_end));
    } else {
        lemma_enc_blocks_index(bs.drop_first(), i - 1);
        assert(enc_blocks(bs).subrange(16 * i, 16 * i + 8) =~= enc_blocks(
            bs.drop_first(),
        ).subrange(16 * (i - 1), 16 * (i - 1) + 8));
        assert(enc_blocks(bs).subrange(16 * i + 8, 16 * i + 16) =~= enc_blocks(
            bs.drop_first(),
        ).subrange(16 * (i - 1) + 8, 16 * (i - 1) + 16));
        assert(bs[i] == bs.drop_first()[i - 1]);
    }
}

/// Appending one block extends the encoding on the right.
pub proof fn lemma_enc_blocks_push(bs: Seq<PakCompressedBlock>, b: PakCompressedBlock)
    ensures
        enc_blocks(bs.push(b)) == enc_blocks(bs) + enc_block(b),
    decreases bs.len(),
{
    if bs.len() == 0 {
        assert(bs.push(b)[0] == b);
        assert(bs =~= Seq::<PakCompressedBlock>::empty());
        assert(bs.push(b).drop_first() =~= bs);
        assert(enc_blocks(bs.push(b)) == enc_block(b) + enc_blocks(bs));
        assert(enc_blocks(bs) =~= Seq::<u8>::empty());
        assert(enc_blocks(bs.push(b)) =~= enc_blocks(bs) + enc_block(b));
    } else {
        assert(bs.push(b).drop_first() =~= bs.drop_first().push(b));
        assert(bs.push(b)[0] == bs[0]);
        lemma_enc_blocks_push(bs.drop_first(), b);
        assert(enc_blocks(bs.push(b)) =~= enc_blocks(bs) + enc_block(b));
    }
}

/// Parsing inverts encoding for the block list.
pub proof fn lemma_dec_enc_blocks(bs: Seq<PakCompressedBlock>, rest: Seq<u8>)
    ensures
        dec_blocks(enc_blocks(bs) + rest, bs.len() as nat) == Some(
            (bs, 16 * bs.len() as int),
        ),
{
    vstd::bytes::lemma_auto_spec_u64_to_from_le_bytes();
    lemma_enc_blocks_len(bs);
    let s = enc_blocks(bs) + rest;
    let n = bs.len() as nat;
    let parsed = Seq::new(
        n,
        |i: int|
            PakCompressedBlock {
                compressed_start: spec_u64_from_le(s.subrange(16 * i, 16 * i + 8)) as i64,
                compressed_end: spec_u64_from_le(s.subrange(16 * i + 8, 16 * i + 16)) as i64,
            },
    );
    assert forall|i: int| 0 <= i < bs.len() implies parsed[i] == bs[i] by {
        lemma_enc_blocks_index(bs, i);
        assert(s.subrange(16 * i, 16 * i + 8) =~= enc_blocks(bs).subrange(16 * i, 16 * i + 8));
        assert(s.subrange(16 * i + 8, 16 * i + 16) =~= enc_blocks(bs).subrange(
            16 * i + 8,
            16 * i + 16,
        ));
        let a = bs[i].compressed_start;
        let b = bs[i].compressed_end;
        assert((a as u64) as i64 == a) by (bit_vector);
        assert((b as u64) as i64 == b) by (bit_vector);
    }
    assert(parsed =~= bs);
}

// ---------------------------------------------------------------------------
// Wire form of a whole entry, full (non-compact) encoding
// ---------------------------------------------------------------------------
/// Legacy (pre-FName) compression flags written for a method index.
pub open spec fn legacy_flags_of(m: u32) -> i32 {
    if m == 0 {
        0
    } else if m == 1 {
        1
    } else if m == 2 {
        2
    } else {
        4
    }
}

/// The method selector, whose width depends on the version.
pub open spec fn enc_method(m: u32, v: PakVersion) -> Seq<u8> {
    if v.spec_before(PakVersion::FNameBasedCompressionMethod422) {
        enc_i32(legacy_flags_of(m))
    } else if v == PakVersion::FNameBasedCompressionMethod422 {
        enc_u8(m as u8)
    } else {
        enc_u32(m)
    }
}

pub open spec fn dec_method(s: Seq<u8>, v: PakVersion) -> Option<(u32, int)> {
    if v.spec_before(PakVersion::FNameBasedCompressionMethod422) {
        match dec_i32(s) {
            None => None,
            Some((f, _)) => if f == 0 {
                Some((0u32, 4int))
            } else if f & 1 != 0 {
                Some((1u32, 4int))
            } else if f & 2 != 0 {
                Some((2u32, 4int))
            } else if f & 4 != 0 {
                Some((3u32, 4int))
            } else {
                None
            },
        }
    } else if v == PakVersion::FNameBasedCompressionMethod422 {
        match dec_u8(s) {
            None => None,
            Some((x, _)) => Some((x as u32, 1int)),
        }
    } else {
        dec_u32(s)
    }
}

/// Whether an entry can be written in full form at a version: the method
/// selector must be representable, and the block count must fit its u32 prefix.
pub open spec fn entry_encodable(e: PakEntryV, v: PakVersion) -> bool {
    &&& e.hash.len() == 20
    &&& (v.spec_before(PakVersion::FNameBasedCompressionMethod422)
        ==> e.compression_method_index <= 3)
    &&& (v == PakVersion::FNameBasedCompressionMethod422 ==> e.compression_method_index <= 255)
    &&& (v.spec_at_least(PakVersion::CompressionEncryption) && e.compression_method_index != 0
        ==> e.compression_blocks.len() <= u32::MAX)
}

/// Whether the version can carry every field of the entry, so that decoding
/// gives back the same value: old versions drop flags, blocks and block size,
/// and an uncompressed entry carries no block list.
pub open spec fn entry_lossless(e: PakEntryV, v: PakVersion) -> bool {
    &&& (v.spec_before(PakVersion::CompressionEncryption) ==> e.flags == 0
        && e.compression_block_size == 0 && e.compression_blocks.len() == 0)
    &&& (e.compression_method_index == 0 ==> e.compression_blocks.len() == 0)
}

pub open spec fn enc_entry(e: PakEntryV, v: PakVersion) -> Seq<u8> {
    enc_u64(e.offset) + enc_u64(e.size) + enc_u64(e.uncompressed_size) + enc_method(
        e.compression_method_index,
        v,
    ) + (if v.spec_before(PakVersion::NoTimestamps) {
        enc_u64(0)
    } else {
        Seq::<u8>::empty()
    }) + e.hash + (if v.spec_at_least(PakVersion::CompressionEncryption) {
        (if e.compression_method_index != 0 {
            enc_u32(e.compression_blocks.len() as u32) + enc_blocks(e.compression_blocks)
        } else {
            Seq::<u8>::empty()
        }) + enc_u8(e.flags) + enc_u32(e.compression_block_size)
    } else {
        Seq::<u8>::empty()
    })
}

pub open spec fn dec_entry_finish(
    s: Seq<u8>,
    offset: u64,
    size: u64,
    unc: u64,
    method: u32,
    hash: Seq<u8>,
    blocks: Seq<PakCompressedBlock>,
    p: int,
) -> Option<(PakEntryV, int)> {
    match dec_u8(s.skip(p)) {
        None => None,
        Some((flags, _)) => match dec_u32(s.skip(p + 1)) {
            None => None,
            Some((cbs, _)) => Some(
                (
                    PakEntryV {
                        offset,
                        size,
                        uncompressed_size: unc,
                        hash,
                        compression_blocks: blocks,
                        compression_block_size: cbs,
                        compression_method_index: method,
                        flags,
                    },
                    p + 5,
                ),
            ),
        },
    }
}

pub open spec fn dec_entry_tail(
    s: Seq<u8>,
    v: PakVersion,
    offset: u64,
    size: u64,
    unc: u64,
    method: u32,
    hash: Seq<u8>,
    p: int,
) -> Option<(PakEntryV, int)> {
    if v.spec_at_least(PakVersion::CompressionEncryption) {
        if method != 0 {
            match dec_u32(s.skip(p)) {
                None => None,
                Some((n, _)) => match dec_blocks(s.skip(p + 4), n as nat) {
                    None => None,
                    Some((blocks, bl)) => dec_entry_finish(
                        s,
                        offset,
                        size,
                        unc,
                        method,
                        hash,
                        blocks,
                        p + 4 + bl,
                    ),
                },
            }
        } else {
            dec_entry_finish(s, offset, size, unc, method, hash, Seq::empty(), p)
        }
    } else {
        Some(
            (
                PakEntryV {
                    offset,
                    size,
                    uncompressed_size: unc,
                    hash,
                    compression_blocks: Seq::empty(),
                    compression_block_size: 0,
                    compression_method_index: method,
                    flags: 0,
                },
                p,
            ),
        )
    }
}


/// An unknown legacy compression selector: nonzero yet carrying none of the
/// three single-bit method flags.
pub open spec fn legacy_unknown(f: i32) -> bool {
    f != 0 && f & 1 == 0 && f & 2 == 0 && f & 4 == 0
}

/// The error kind a failing entry parse reports: `Other` exactly when the
/// bytes carry an unknown legacy selector, `Eof` when they run out.
pub open spec fn dec_entry_err(s: Seq<u8>, v: PakVersion) -> PakError {
    if v.spec_before(PakVersion::FNameBasedCompressionMethod422) && s.len() >= 28
        && legacy_unknown(dec_i32(s.skip(24))->Some_0.0) {
        PakError::Other
    } else {
        PakError::Eof
    }
}

pub open spec fn dec_entry(s: Seq<u8>, v: PakVersion) -> Option<(PakEntryV, int)> {
    match dec_u64(s) {
        None => None,
        Some((offset, _)) => match dec_u64(s.skip(8)) {
            None => None,
            Some((size, _)) => match dec_u64(s.skip(16)) {
                None => None,
                Some((unc, _)) => match dec_method(s.skip(24), v) {
                    None => None,
                    Some((method, mlen)) => {
                        let p = 24 + mlen + (if v.spec_before(PakVersion::NoTimestamps) {
                            8int
                        } else {
                            0int
                        });
                        if s.len() >= p + 20 {
                            dec_entry_tail(
                                s,
                                v,
                                offset,
                                size,
                                unc,
                                method,
                                s.subrange(p, p + 20),
                                p + 20,
                            )
                        } else {
                            None
                        }
                    },
                },
            },
        },
    }
}

/// Closed-form length of the full encoding.
pub open spec fn entry_full_len(method: u32, nblocks: int, v: PakVersion) -> int {
    24 + (if v.spec_before(PakVersion::FNameBasedCompressionMethod422) {
        4int
    } else if v == PakVersion::FNameBasedCompressionMethod422 {
        1int
    } else {
        4int
    }) + (if v.spec_before(PakVersion::NoTimestamps) {
        8int
    } else {
        0int
    }) + 20 + (if v.spec_at_least(PakVersion::CompressionEncryption) {
        (if method != 0 {
            4 + 16 * nblocks
        } else {
            0int
        }) + 5
    } else {
        0int
    })
}

pub proof fn lemma_enc_entry_len(e: PakEntryV, v: PakVersion)
    requires
        e.hash.len() == 20,
    ensures
        enc_entry(e, v).len() == entry_full_len(
            e.compression_method_index,
            e.compression_blocks.len() as int,
            v,
        ),
{
    vstd::bytes::lemma_auto_spec_u32_to_from_le_bytes();
    vstd::bytes::lemma_auto_spec_u64_to_from_le_bytes();
    lemma_enc_blocks_len(e.compression_blocks);
}

/// Parsing a full-form entry inverts encoding it, for any trailing bytes.
#[verifier::rlimit(60)]
#[verifier::spinoff_prover]
pub proof fn lemma_dec_enc_entry(e: PakEntryV, v: PakVersion, rest: Seq<u8>)
    requires
        entry_encodable(e, v),
        entry_lossless(e, v),
    ensures
        dec_entry(enc_entry(e, v) + rest, v) == Some((e, enc_entry(e, v).len() as int)),
{
    vstd::bytes::lemma_auto_spec_u32_to_from_le_bytes();
    vstd::bytes::lemma_auto_spec_u64_to_from_le_bytes();
    lemma_enc_blocks_len(e.compression_blocks);
    lemma_enc_entry_len(e, v);
    let m = e.compression_method_index;
    let mb = enc_method(m, v);
    let ticks: Seq<u8> = if v.spec_before(PakVersion::NoTimestamps) {
        enc_u64(0)
    } else {
        Seq::<u8>::empty()
    };
    let tail: Seq<u8> = if v.spec_at_least(PakVersion::CompressionEncryption) {
        (if m != 0 {
            enc_u32(e.compression_blocks.len() as u32) + enc_blocks(e.compression_blocks)
        } else {
            Seq::<u8>::empty()
        }) + enc_u8(e.flags) + enc_u32(e.compression_block_size)
    } else {
        Seq::<u8>::empty()
    };
    let s = enc_entry(e, v) + rest;
    let mlen = mb.len() as int;
    lemma_dec_u64(e.offset, enc_u64(e.size) + enc_u64(e.uncompressed_size) + mb + ticks + e.hash
        + tail + rest);
    assert(s =~= enc_u64(e.offset) + (enc_u64(e.size) + enc_u64(e.uncompressed_size) + mb + ticks
        + e.hash + tail + rest));
    lemma_dec_u64(e.size, enc_u64(e.uncompressed_size) + mb + ticks + e.hash + tail + rest);
    assert(s.skip(8) =~= enc_u64(e.size) + (enc_u64(e.uncompressed_size) + mb + ticks + e.hash
        + tail + rest));
    lemma_dec_u64(e.uncompressed_size, mb + ticks + e.hash + tail + rest);
    assert(s.skip(16) =~= enc_u64(e.uncompressed_size) + (mb + ticks + e.hash + tail + rest));
    assert(s.skip(24) =~= mb + (ticks + e.hash + tail + rest));
    lemma_dec_method(m, v, ticks + e.hash + tail + rest);
    assert(dec_method(s.skip(24), v) == Some((m, mlen)));
    let p = 24 + mlen + (if v.spec_before(PakVersion::NoTimestamps) {
        8int
    } else {
        0int
    });
    assert(s.skip(24 + mlen) =~= ticks + (e.hash + tail + rest));
    assert(s.len() >= p + 20);
    assert(s.subrange(p, p + 20) =~= e.hash);
    lemma_dec_enc_entry_tail(e, v, rest, s, p + 20);
}

/// The method selector round-trips when it is representable at the version.
pub proof fn lemma_dec_method(m: u32, v: PakVersion, rest: Seq<u8>)
    requires
        v.spec_before(PakVersion::FNameBasedCompressionMethod422) ==> m <= 3,
        v == PakVersion::FNameBasedCompressionMethod422 ==> m <= 255,
    ensures
        dec_method(enc_method(m, v) + rest, v) == Some((m, enc_method(m, v).len() as int)),
{
    vstd::bytes::lemma_auto_spec_u32_to_from_le_bytes();
    if v.spec_before(PakVersion::FNameBasedCompressionMethod422) {
        let f = legacy_flags_of(m);
        lemma_dec_i32(f, rest);
        assert(1i32 & 1i32 != 0) by (bit_vector);
        assert(2i32 & 1i32 == 0) by (bit_vector);
        assert(2i32 & 2i32 != 0) by (bit_vector);
        assert(4i32 & 1i32 == 0) by (bit_vector);
        assert(4i32 & 2i32 == 0) by (bit_vector);
        assert(4i32 & 4i32 != 0) by (bit_vector);
    } else if v == PakVersion::FNameBasedCompressionMethod422 {
        lemma_dec_u8(m as u8, rest);
        assert((m as u8) as u32 == m) by (bit_vector)
            requires
                m <= 255,
        ;
    } else {
        lemma_dec_u32(m, rest);
    }
}

/// The tail of the full form (blocks, flags, block size) round-trips.
proof fn lemma_dec_enc_entry_tail(e: PakEntryV, v: PakVersion, rest: Seq<u8>, s: Seq<u8>, p: int)
    requires
        entry_encodable(e, v),
        entry_lossless(e, v),
        s == enc_entry(e, v) + rest,
        p == entry_full_len(
            e.compression_method_index,
            e.compression_blocks.len() as int,
            v,
        ) - (if v.spec_at_least(PakVersion::CompressionEncryption) {
            (if e.compression_method_index != 0 {
                4 + 16 * e.compression_blocks.len() as int
            } else {
                0int
            }) + 5
        } else {
            0int
        }),
    ensures
        dec_entry_tail(
            s,
            v,
            e.offset,
            e.size,
            e.uncompressed_size,
            e.compression_method_index,
            e.hash,
            p,
        ) == Some((e, enc_entry(e, v).len() as int)),
{
    vstd::bytes::lemma_auto_spec_u32_to_from_le_bytes();
    vstd::bytes::lemma_auto_spec_u64_to_from_le_bytes();
    lemma_enc_blocks_len(e.compression_blocks);
    lemma_enc_entry_len(e, v);
    let m = e.compression_method_index;
    let bs = e.compression_blocks;
    if v.spec_at_least(PakVersion::CompressionEncryption) {
        if m != 0 {
            let n = bs.len() as u32;
            lemma_dec_u32(n, enc_blocks(bs) + enc_u8(e.flags) + enc_u32(e.compression_block_size)
                + rest);
            assert(s.skip(p) =~= enc_u32(n) + (enc_blocks(bs) + enc_u8(e.flags) + enc_u32(
                e.compression_block_size,
            ) + rest));
            lemma_dec_enc_blocks(bs, enc_u8(e.flags) + enc_u32(e.compression_block_size) + rest);
            assert(s.skip(p + 4) =~= enc_blocks(bs) + (enc_u8(e.flags) + enc_u32(
                e.compression_block_size,
            ) + rest));
            assert(n as nat == bs.len());
            let q = p + 4 + 16 * bs.len() as int;
            lemma_dec_u8(e.flags, enc_u32(e.compression_block_size) + rest);
            assert(s.skip(q) =~= enc_u8(e.flags) + (enc_u32(e.compression_block_size) + rest));
            lemma_dec_u32(e.compression_block_size, rest);
            assert(s.skip(q + 1) =~= enc_u32(e.compression_block_size) + rest);
        } else {
            lemma_dec_u8(e.flags, enc_u32(e.compression_block_size) + rest);
            assert(s.skip(p) =~= enc_u8(e.flags) + (enc_u32(e.compression_block_size) + rest));
            lemma_dec_u32(e.compression_block_size, rest);
            assert(s.skip(p + 1) =~= enc_u32(e.compression_block_size) + rest);
            assert(bs =~= Seq::<PakCompressedBlock>::empty());
        }
    } else {
        assert(bs =~= Seq::<PakCompressedBlock>::empty());
    }
}

impl PakEntry {
    /// A verified deep copy.
    pub fn duplicate(&self) -> (r: PakEntry)
        ensures
            r@ == self@,
    {
        let mut blocks: Vec<PakCompressedBlock> = Vec::new();
        let mut i: usize = 0;
        while i < self.compression_blocks.len()
            invariant
                i <= self.compression_blocks@.len(),
                blocks@ =~= self.compression_blocks@.take(i as int),
            decreases self.compression_blocks@.len() - i,
        {
            blocks.push(self.compression_blocks[i]);
            i = i + 1;
        }
        proof {
            assert(blocks@ =~= self.compression_blocks@);
        }
        PakEntry {
            offset: self.offset,
            size: self.size,
            uncompressed_size: self.uncompressed_size,
            hash: self.hash,
            compression_blocks: blocks,
            compression_block_size: self.compression_block_size,
            compression_method_index: self.compression_method_index,
            flags: self.flags,
        }
    }

    /// The number of bytes of the full form at a version.
    pub fn ser_de_len(&self, version: PakVersion) -> (r: u64)
        requires
            entry_encodable(self@, version),
        ensures
            r == enc_entry(self@, version).len(),
            r == entry_full_len(
                self@.compression_method_index,
                self@.compression_blocks.len() as int,
                version,
            ),
    {
        proof {
            lemma_enc_entry_len(self@, version);
        }
        let mlen: u64 = if version.before(PakVersion::FNameBasedCompressionMethod422) {
            4
        } else if version == PakVersion::FNameBasedCompressionMethod422 {
            1
        } else {
            4
        };
        let ticks: u64 = if version.before(PakVersion::NoTimestamps) {
            8
        } else {
            0
        };
        let tail: u64 = if version.at_least(PakVersion::CompressionEncryption) {
            (if self.compression_method_index != 0 {
                4 + 16 * (self.compression_blocks.len() as u64)
            } else {
                0
            }) + 5
        } else {
            0
        };
        24 + mlen + ticks + 20 + tail
    }

    /// Writes the full form. Fails with `InvalidInput` exactly when the method
    /// index cannot be represented at the version or the block count overflows
    /// its u32 prefix; nothing is written then.
    pub fn ser(&self, w: &mut ArchiveWriter, version: PakVersion) -> (r: Result<(), PakError>)
        ensures
            match r {
                Ok(()) => entry_encodable(self@, version) && final(w).data@ == old(w).data@
                    + enc_entry(self@, version),
                Err(e) => e == PakError::InvalidInput && !entry_encodable(self@, version)
                    && final(w).data@ == old(w).data@,
            },
    {
        let m = self.compression_method_index;
        if version.before(PakVersion::FNameBasedCompressionMethod422) {
            if m > 3 {
                return Err(PakError::InvalidInput);
            }
        } else if version == PakVersion::FNameBasedCompressionMethod422 {
            if m > 255 {
                return Err(PakError::InvalidInput);
            }
        }
        if version.at_least(PakVersion::CompressionEncryption) && m != 0 {
            if self.compression_blocks.len() > u32::MAX as usize {
                return Err(PakError::InvalidInput);
            }
        }
        let ghost b0 = w.data@;
        w.ser_u64(self.offset);
        w.ser_u64(self.size);
        w.ser_u64(self.uncompressed_size);
        if version.before(PakVersion::FNameBasedCompressionMethod422) {
            let f: i32 = if m == 0 {
                0
            } else if m == 1 {
                1
            } else if m == 2 {
                2
            } else {
                4
            };
            w.ser_i32(f);
        } else if version == PakVersion::FNameBasedCompressionMethod422 {
            w.ser_u8(m as u8);
        } else {
            w.ser_u32(m);
        }
        if version.before(PakVersion::NoTimestamps) {
            w.ser_u64(0);
        }
        w.write_all(self.hash.as_slice());
        let ghost b1 = w.data@;
        proof {
            assert(b1 =~= b0 + (enc_u64(self@.offset) + enc_u64(self@.size) + enc_u64(
                self@.uncompressed_size,
            ) + enc_method(self@.compression_method_index, version) + (
            if version.spec_before(PakVersion::NoTimestamps) {
                enc_u64(0)
            } else {
                Seq::<u8>::empty()
            }) + self@.hash));
        }
        if version.at_least(PakVersion::CompressionEncryption) {
            if m != 0 {
                w.ser_u32(self.compression_blocks.len() as u32);
                let ghost b2 = w.data@;
                let n = self.compression_blocks.len();
                let mut i: usize = 0;
                while i < n
                    invariant
                        n == self.compression_blocks@.len(),
                        i <= n,
                        w.data@ =~= b2 + enc_blocks(self.compression_blocks@.take(i as int)),
                    decreases n - i,
                {
                    let b = self.compression_blocks[i];
                    w.ser_i64(b.compressed_start);
                    w.ser_i64(b.compressed_end);
                    proof {
                        lemma_enc_blocks_push(self.compression_blocks@.take(i as int), b);
                        assert(self.compression_blocks@.take(i + 1) =~= self.compression_blocks@
                            .take(i as int).push(b));
                        assert(w.data@ =~= b2 + enc_blocks(self.compression_blocks@.take(i + 1)));
                    }
                    i = i + 1;
                }
                proof {
                    assert(self.compression_blocks@.take(n as int) =~= self.compression_blocks@);
                }
            }
            w.ser_u8(self.flags);
            w.ser_u32(self.compression_block_size);
        }
        proof {
            assert(w.data@ =~= b0 + enc_entry(self@, version));
        }
        Ok(())
    }

    /// Reads the full form. Succeeds exactly when the parser accepts the
    /// remaining bytes; `Eof` when bytes run out, `Other` on an unknown legacy
    /// compression selector.
    #[verifier::rlimit(100)]
    #[verifier::spinoff_prover]
    pub fn de(r: &mut ArchiveReader, version: PakVersion) -> (res: Result<PakEntry, PakError>)
        requires
            old(r).wf(),
        ensures
            final(r).wf(),
            final(r).data@ == old(r).data@,
            match res {
                Ok(e) => dec_entry(old(r).remaining(), version) == Some(
                    (e@, final(r).pos - old(r).pos),
                ) && final(r).pos >= old(r).pos,
                Err(err) => dec_entry(old(r).remaining(), version) is None && err == dec_entry_err(
                    old(r).remaining(),
                    version,
                ),
            },
    {
        let ghost s = old(r).remaining();
        let ghost p0 = r.pos as int;
        let offset = match r.de_u64() {
            Ok(x) => x,
            Err(e) => { return Err(e) },
        };
        proof {
            assert(r.remaining() =~= s.skip(8));
        }
        let size = match r.de_u64() {
            Ok(x) => x,
            Err(e) => { return Err(e) },
        };
        proof {
            assert(r.remaining() =~= s.skip(16));
        }
        let unc = match r.de_u64() {
            Ok(x) => x,
            Err(e) => { return Err(e) },
        };
        proof {
            assert(r.remaining() =~= s.skip(24));
        }
        let method = match de_method_sel(r, version) {
            Ok(x) => x,
            Err(e) => { return Err(e) },
        };
        let ghost mlen = r.pos - p0 - 24;
        proof {
            assert(dec_method(s.skip(24), version) == Some((method, mlen)));
        }
        if version.before(PakVersion::NoTimestamps) {
            let _ticks = match r.de_u64() {
                Ok(x) => x,
                Err(e) => {
                    proof {
                        assert(r.remaining() =~= s.skip(24 + mlen));
                    }
                    return Err(e)
                },
            };
        }
        let ghost p = r.pos - p0;
        proof {
            assert(r.remaining() =~= s.skip(p));
        }
        let hash_vec = match r.read_exact(20) {
            Ok(v) => v,
            Err(e) => {
                proof {
                    assert(s.len() < p + 20);
                }
                return Err(e);
            },
        };
        let hash = vec_to_hash20(&hash_vec);
        proof {
            assert(hash@ =~= s.subrange(p, p + 20));
            assert(r.remaining() =~= s.skip(p + 20));
        }
        let mut entry = PakEntry {
            offset,
            size,
            uncompressed_size: unc,
            hash,
            compression_blocks: Vec::new(),
            compression_block_size: 0,
            compression_method_index: method,
            flags: 0,
        };
        if !version.at_least(PakVersion::CompressionEncryption) {
            proof {
                assert(entry@.compression_blocks =~= Seq::<PakCompressedBlock>::empty());
                assert(entry@ =~= (PakEntryV {
                    offset,
                    size,
                    uncompressed_size: unc,
                    hash: s.subrange(p, p + 20),
                    compression_blocks: Seq::empty(),
                    compression_block_size: 0,
                    compression_method_index: method,
                    flags: 0,
                }));
                assert(dec_entry(s, version) == Some((entry@, p + 20)));
            }
            return Ok(entry);
        }
        let ghost pt = p + 20;
        if method != 0 {
            let n = match r.de_u32() {
                Ok(x) => x,
                Err(e) => { return Err(e) },
            };
            proof {
                assert(r.remaining() =~= s.skip(pt + 4));
            }
            let blocks = match de_block_list(r, n) {
                Ok(bs) => bs,
                Err(e) => { return Err(e) },
            };
            proof {
                assert(r.remaining() =~= s.skip(pt + 4 + 16 * (n as int)));
            }
            entry.compression_blocks = blocks;
        }
        let ghost pb = r.pos - p0;
        proof {
            assert(r.remaining() =~= s.skip(pb));
        }
        let flags = match r.de_u8() {
            Ok(x) => x,
            Err(e) => { return Err(e) },
        };
        proof {
            assert(r.remaining() =~= s.skip(pb + 1));
        }
        let cbs = match r.de_u32() {
            Ok(x) => x,
            Err(e) => { return Err(e) },
        };
        entry.flags = flags;
        entry.compression_block_size = cbs;
        proof {
            assert(dec_u8(s.skip(pb)) == Some((flags, 1int)));
            assert(dec_u32(s.skip(pb + 1)) == Some((cbs, 4int)));
            if method != 0 {
                let n = dec_u32(s.skip(pt))->Some_0.0;
                let bl = 16 * (n as int);
                assert(pb == pt + 4 + bl);
                let dpair = dec_blocks(s.skip(pt + 4), n as nat)->Some_0;
                assert(entry@.compression_blocks == dpair.0);
                assert(dec_entry_finish(
                    s,
                    offset,
                    size,
                    unc,
                    method,
                    s.subrange(p, p + 20),
                    dpair.0,
                    pb,
                ) == Some((entry@, pb + 5)));
                assert(dec_entry_tail(
                    s,
                    version,
                    offset,
                    size,
                    unc,
                    method,
                    s.subrange(p, p + 20),
                    pt,
                ) == Some((entry@, pb + 5)));
            } else {
                assert(pb == pt);
                assert(entry@.compression_blocks =~= Seq::<PakCompressedBlock>::empty());
                assert(dec_entry_finish(
                    s,
                    offset,
                    size,
                    unc,
                    method,
                    s.subrange(p, p + 20),
                    Seq::empty(),
                    pb,
                ) == Some((entry@, pb + 5)));
            }
            assert(dec_entry(s, version) == Some((entry@, pb + 5)));
        }
        Ok(entry)
    }
}

/// Copies exactly twenty bytes into a hash array.
pub fn vec_to_hash20(v: &Vec<u8>) -> (r: [u8; 20])
    requires
        v@.len() == 20,
    ensures
        r@ == v@,
{
    let mut r = [0u8; 20];
    let mut i: usize = 0;
    while i < 20
        invariant
            i <= 20,
            v@.len() == 20,
            r@.len() == 20,
            forall|j: int| 0 <= j < i as int ==> r@[j] == v@[j],
        decreases 20 - i,
    {
        r[i] = v[i];
        i = i + 1;
    }
    proof {
        assert(r@ =~= v@);
    }
    r
}


/// Reads the version-dependent compression-method selector.
fn de_method_sel(r: &mut ArchiveReader, version: PakVersion) -> (res: Result<u32, PakError>)
    requires
        old(r).wf(),
    ensures
        final(r).wf(),
        final(r).data@ == old(r).data@,
        match res {
            Ok(m) => dec_method(old(r).remaining(), version) == Some(
                (m, final(r).pos - old(r).pos),
            ) && final(r).pos >= old(r).pos,
            Err(e) => dec_method(old(r).remaining(), version) is None && ({
                let s = old(r).remaining();
                if version.spec_before(PakVersion::FNameBasedCompressionMethod422) && s.len() >= 4
                    && legacy_unknown(dec_i32(s)->Some_0.0) {
                    e == PakError::Other
                } else {
                    e == PakError::Eof
                }
            }),
        },
{
    if version.before(PakVersion::FNameBasedCompressionMethod422) {
        let f = match r.de_i32() {
            Ok(x) => x,
            Err(e) => { return Err(e) },
        };
        if f == 0 {
            Ok(0)
        } else if f & 1 != 0 {
            Ok(1)
        } else if f & 2 != 0 {
            Ok(2)
        } else if f & 4 != 0 {
            Ok(3)
        } else {
            Err(PakError::Other)
        }
    } else if version == PakVersion::FNameBasedCompressionMethod422 {
        let x = match r.de_u8() {
            Ok(x) => x,
            Err(e) => { return Err(e) },
        };
        Ok(x as u32)
    } else {
        match r.de_u32() {
            Ok(x) => Ok(x),
            Err(e) => Err(e),
        }
    }
}

/// Reads `n` compression blocks of sixteen bytes each.
fn de_block_list(r: &mut ArchiveReader, n: u32) -> (res: Result<Vec<PakCompressedBlock>, PakError>)
    requires
        old(r).wf(),
    ensures
        final(r).wf(),
        final(r).data@ == old(r).data@,
        match res {
            Ok(bs) => dec_blocks(old(r).remaining(), n as nat) == Some((bs@, 16 * (n as int)))
                && final(r).pos == old(r).pos + 16 * (n as int),
            Err(e) => dec_blocks(old(r).remaining(), n as nat) is None && e == PakError::Eof,
        },
{
    let ghost region = old(r).remaining();
    let ghost p0 = r.pos as int;
    let avail = r.data.len() - r.pos;
    if (avail as u64) < (n as u64) * 16 {
        proof {
            assert(region.len() < 16 * (n as nat));
        }
        return Err(PakError::Eof);
    }
    let mut blocks: Vec<PakCompressedBlock> = Vec::new();
    let mut i: usize = 0;
    while i < n as usize
        invariant
            r.wf(),
            r.data@ == old(r).data@,
            i <= n as usize,
            region == old(r).data@.subrange(p0, old(r).data@.len() as int),
            region.len() >= 16 * (n as int),
            0 <= p0 <= r.data@.len(),
            r.pos == p0 + 16 * i,
            blocks@.len() == i as int,
            forall|j: int|
                0 <= j < i as int ==> blocks@[j] == (PakCompressedBlock {
                    compressed_start: spec_u64_from_le(region.subrange(16 * j, 16 * j + 8)) as i64,
                    compressed_end: spec_u64_from_le(
                        region.subrange(16 * j + 8, 16 * j + 16),
                    ) as i64,
                }),
        decreases n as int - i,
    {
        proof {
            assert(r.remaining() =~= region.skip(16 * (i as int)));
            assert(region.skip(16 * (i as int)).subrange(0, 8) =~= region.subrange(
                16 * (i as int),
                16 * (i as int) + 8,
            ));
        }
        let a = match r.de_i64() {
            Ok(x) => x,
            Err(e) => { return Err(e) },
        };
        proof {
            assert(r.remaining() =~= region.skip(16 * (i as int) + 8));
            assert(region.skip(16 * (i as int) + 8).subrange(0, 8) =~= region.subrange(
                16 * (i as int) + 8,
                16 * (i as int) + 16,
            ));
        }
        let b = match r.de_i64() {
            Ok(x) => x,
            Err(e) => { return Err(e) },
        };
        blocks.push(PakCompressedBlock { compressed_start: a, compressed_end: b });
        i = i + 1;
    }
    proof {
        let parsed_pair = dec_blocks(region, n as nat)->Some_0;
        assert(blocks@ =~= parsed_pair.0);
    }
    Ok(blocks)
}

} // verus!
