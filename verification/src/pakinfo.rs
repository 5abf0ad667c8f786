//! The trailer (info) codec: the fixed-size, version-dependent footer that
//! carries the magic, version, index location and hash, encryption flags and
//! the compression-method name table.

use vstd::prelude::*;
use vstd::utf8::{decode_utf8, valid_utf8};

use crate::archive::{
    enc_i32, enc_u32, enc_u64, enc_u8, dec_i32, dec_u32, dec_u64, dec_u8, lemma_dec_i32,
    lemma_dec_u32, lemma_dec_u64, lemma_dec_u8, str_bytes, string_from_utf8, ArchiveReader,
    ArchiveWriter,
};
use crate::pakentry::vec_to_hash20;
use crate::{PakError, PakVersion, COMPRESSION_METHOD_NAME_LEN, PAK_FILE_MAGIC};

verus! {

broadcast use vstd::string::group_string_axioms;

/// The trailer of a pak file.
#[derive(Debug, Clone)]
pub struct PakInfo {
    /// Magic value; always `PAK_FILE_MAGIC` in a well-formed trailer.
    pub magic: u32,
    /// Format version.
    pub version: PakVersion,
    /// Offset of the serialized index.
    pub index_offset: u64,
    /// Size in bytes of the serialized index.
    pub index_size: u64,
    /// SHA1 of the plaintext index bytes.
    pub hash: [u8; 20],
    /// Whether the index bytes are AES-encrypted.
    pub encrypted_index: bool,
    /// Whether the index is frozen; rejected by the reader.
    pub index_is_frozen: bool,
    /// Encryption key GUID; zero when the embedded key is used.
    pub encryption_key_guid: [u32; 4],
    /// Compression method names; element 0 is always the implicit empty method.
    pub compression_methods: Vec<String>,
}

/// The mathematical value of a trailer.
#[verifier::ext_equal]
pub ghost struct PakInfoV {
    pub magic: u32,
    pub version: PakVersion,
    pub index_offset: u64,
    pub index_size: u64,
    pub hash: Seq<u8>,
    pub encrypted_index: bool,
    pub index_is_frozen: bool,
    pub encryption_key_guid: Seq<u32>,
    pub compression_methods: Seq<Seq<char>>,
}

impl View for PakInfo {
    type V = PakInfoV;

    open spec fn view(&self) -> PakInfoV {
        PakInfoV {
            magic: self.magic,
            version: self.version,
            index_offset: self.index_offset,
            index_size: self.index_size,
            hash: self.hash@,
            encrypted_index: self.encrypted_index,
            index_is_frozen: self.index_is_frozen,
            encryption_key_guid: self.encryption_key_guid@,
            compression_methods: self.compression_methods.deep_view(),
        }
    }
}

/// Number of stored method-name slots at a version that has the table.
pub open spec fn spec_num_slots(v: PakVersion) -> int {
    if v == PakVersion::FNameBasedCompressionMethod422 {
        4
    } else {
        5
    }
}

/// Closed-form byte length of the trailer at a version.
pub open spec fn info_len(v: PakVersion) -> int {
    (if v.spec_at_least(PakVersion::EncryptionKeyGuid) {
        16int
    } else {
        0int
    }) + 45 + (if v.spec_at_least(PakVersion::FrozenIndex) {
        1int
    } else {
        0int
    }) + (if v.spec_at_least(PakVersion::FNameBasedCompressionMethod422) {
        32 * spec_num_slots(v)
    } else {
        0int
    })
}

/// One NUL-padded 32-byte method-name slot; slot `idx` stores name `idx + 1`.
pub open spec fn method_slot(names: Seq<Seq<char>>, idx: int) -> Seq<u8> {
    let nb: Seq<u8> = if idx + 1 < names.len() {
        str_bytes(names[idx + 1])
    } else {
        Seq::<u8>::empty()
    };
    nb + Seq::new((32 - nb.len()) as nat, |j: int| 0u8)
}

pub open spec fn enc_methods(names: Seq<Seq<char>>, nslots: int) -> Seq<u8>
    decreases nslots,
{
    if nslots <= 0 {
        Seq::empty()
    } else {
        enc_methods(names, nslots - 1) + method_slot(names, nslots - 1)
    }
}

/// Trailing NUL bytes of a slot are padding, dropped on decode.
pub open spec fn trim_zeros(b: Seq<u8>) -> Seq<u8>
    decreases b.len(),
{
    if b.len() > 0 && b[b.len() - 1] == 0 {
        trim_zeros(b.drop_last())
    } else {
        b
    }
}

pub open spec fn dec_method_slot(slot: Seq<u8>) -> Option<Seq<char>> {
    if valid_utf8(trim_zeros(slot)) {
        Some(decode_utf8(trim_zeros(slot)))
    } else {
        None
    }
}

/// Decodes `nslots` slots from the head of `s` into the logical table, whose
/// element 0 is the implicit empty method.
pub open spec fn dec_methods(s: Seq<u8>, nslots: int) -> Option<Seq<Seq<char>>>
    decreases nslots,
{
    if nslots <= 0 {
        Some(seq![Seq::<char>::empty()])
    } else if s.len() < 32 * nslots {
        None
    } else {
        match dec_methods(s, nslots - 1) {
            None => None,
            Some(head) => match dec_method_slot(s.subrange(32 * (nslots - 1), 32 * nslots)) {
                None => None,
                Some(name) => Some(head.push(name)),
            },
        }
    }
}

/// The compression-method table synthesized for versions that store none.
pub open spec fn legacy_methods() -> Seq<Seq<char>> {
    seq![Seq::<char>::empty(), "Zlib".view(), "Gzip".view(), "Oodle".view()]
}

/// Everything before the compression-method table. The two flags here are
/// single bytes on the wire, unlike the u32-sized bools used elsewhere.
pub open spec fn enc_info_head(i: PakInfoV) -> Seq<u8> {
    let v = i.version;
    (if v.spec_at_least(PakVersion::EncryptionKeyGuid) {
        enc_u32(i.encryption_key_guid[0]) + enc_u32(i.encryption_key_guid[1]) + enc_u32(
            i.encryption_key_guid[2],
        ) + enc_u32(i.encryption_key_guid[3])
    } else {
        Seq::<u8>::empty()
    }) + enc_u8(if i.encrypted_index {
        1
    } else {
        0
    }) + enc_u32(i.magic) + enc_i32(v.spec_raw()) + enc_u64(i.index_offset) + enc_u64(
        i.index_size,
    ) + i.hash + (if v.spec_at_least(PakVersion::FrozenIndex) {
        enc_u8(
            if i.index_is_frozen {
                1
            } else {
                0
            },
        )
    } else {
        Seq::<u8>::empty()
    })
}

pub open spec fn enc_info(i: PakInfoV) -> Seq<u8> {
    enc_info_head(i) + (if i.version.spec_at_least(PakVersion::FNameBasedCompressionMethod422) {
        enc_methods(i.compression_methods, spec_num_slots(i.version))
    } else {
        Seq::<u8>::empty()
    })
}

/// Parses a trailer of the given version; fails on a magic or raw-version
/// mismatch and on bad UTF-8 in a method name.
pub open spec fn dec_info(s: Seq<u8>, v: PakVersion) -> Option<(PakInfoV, int)> {
    let gl: int = if v.spec_at_least(PakVersion::EncryptionKeyGuid) {
        16
    } else {
        0
    };
    if s.len() < info_len(v) {
        None
    } else {
        let guid: Seq<u32> = if gl == 16 {
            seq![
                dec_u32(s)->Some_0.0,
                dec_u32(s.skip(4))->Some_0.0,
                dec_u32(s.skip(8))->Some_0.0,
                dec_u32(s.skip(12))->Some_0.0,
            ]
        } else {
            seq![0u32, 0u32, 0u32, 0u32]
        };
        let enc_byte = dec_u8(s.skip(gl))->Some_0.0;
        let magic = dec_u32(s.skip(gl + 1))->Some_0.0;
        let raw = dec_i32(s.skip(gl + 5))->Some_0.0;
        if magic != PAK_FILE_MAGIC || raw != v.spec_raw() {
            None
        } else {
            let index_offset = dec_u64(s.skip(gl + 9))->Some_0.0;
            let index_size = dec_u64(s.skip(gl + 17))->Some_0.0;
            let hash = s.subrange(gl + 25, gl + 45);
            let frozen: bool = if v.spec_at_least(PakVersion::FrozenIndex) {
                dec_u8(s.skip(gl + 45))->Some_0.0 != 0
            } else {
                false
            };
            let fl: int = if v.spec_at_least(PakVersion::FrozenIndex) {
                1
            } else {
                0
            };
            let methods: Option<Seq<Seq<char>>> = if v.spec_at_least(
                PakVersion::FNameBasedCompressionMethod422,
            ) {
                dec_methods(s.skip(gl + 45 + fl), spec_num_slots(v))
            } else {
                Some(legacy_methods())
            };
            match methods {
                None => None,
                Some(ms) => Some(
                    (
                        PakInfoV {
                            magic,
                            version: v,
                            index_offset,
                            index_size,
                            hash,
                            encrypted_index: if v.spec_at_least(PakVersion::IndexEncryption) {
                                enc_byte != 0
                            } else {
                                false
                            },
                            index_is_frozen: frozen,
                            encryption_key_guid: guid,
                            compression_methods: ms,
                        },
                        info_len(v),
                    ),
                ),
            }
        }
    }
}


/// Walks the method slots of a failing table: `Eof` at the first slot whose
/// 32 bytes run out, `Other` at the first slot that is not UTF-8.
pub open spec fn slots_err(t: Seq<u8>, n: int) -> PakError
    decreases n,
{
    if n <= 0 {
        PakError::Other
    } else if t.len() < 32 {
        PakError::Eof
    } else if dec_method_slot(t.subrange(0, 32)) is None {
        PakError::Other
    } else {
        slots_err(t.skip(32), n - 1)
    }
}

/// The error kind a failing trailer parse reports, in read order: `Eof` when
/// bytes run out before the magic, `InvalidInput` on a magic or raw-version
/// mismatch, `Eof` when the fixed fields run out, then the slot walk.
pub open spec fn dec_info_err(s: Seq<u8>, v: PakVersion) -> PakError {
    let gl: int = if v.spec_at_least(PakVersion::EncryptionKeyGuid) {
        16
    } else {
        0
    };
    let fl: int = if v.spec_at_least(PakVersion::FrozenIndex) {
        1
    } else {
        0
    };
    if s.len() < gl + 5 {
        PakError::Eof
    } else if dec_u32(s.skip(gl + 1))->Some_0.0 != PAK_FILE_MAGIC {
        PakError::InvalidInput
    } else if s.len() < gl + 9 {
        PakError::Eof
    } else if dec_i32(s.skip(gl + 5))->Some_0.0 != v.spec_raw() {
        PakError::InvalidInput
    } else if s.len() < gl + 45 + fl {
        PakError::Eof
    } else if v.spec_at_least(PakVersion::FNameBasedCompressionMethod422) {
        slots_err(s.skip(gl + 45 + fl), spec_num_slots(v))
    } else {
        PakError::Other
    }
}

/// Every slot before `idx` of a successfully parsed prefix decodes.
proof fn lemma_dec_methods_prefix_slots(region: Seq<u8>, idx: int)
    requires
        dec_methods(region, idx) is Some,
    ensures
        forall|k: int|
            0 <= k < idx ==> region.len() >= 32 * (k + 1) && dec_method_slot(
                #[trigger] region.subrange(32 * k, 32 * k + 32),
            ) is Some,
    decreases idx,
{
    if idx > 0 {
        lemma_dec_methods_prefix_slots(region, idx - 1);
    }
}

/// The slot walk reaches slot `idx` and reports its failure kind.
proof fn lemma_slots_err_at(region: Seq<u8>, n: int, idx: int, short: bool)
    requires
        0 <= idx < n,
        forall|k: int|
            0 <= k < idx ==> region.len() >= 32 * (k + 1) && dec_method_slot(
                #[trigger] region.subrange(32 * k, 32 * k + 32),
            ) is Some,
        short ==> region.len() < 32 * (idx + 1),
        !short ==> region.len() >= 32 * (idx + 1) && dec_method_slot(
            region.subrange(32 * idx, 32 * idx + 32),
        ) is None,
    ensures
        short ==> slots_err(region, n) == PakError::Eof,
        !short ==> slots_err(region, n) == PakError::Other,
    decreases idx,
{
    if idx == 0 {
        if !short {
            assert(region.subrange(0int, 32int) == region.subrange(32int * 0, 32int * 0 + 32));
        }
    } else {
        assert(region.len() >= 32);
        assert(dec_method_slot(region.subrange(0, 32)) is Some) by {
            assert(region.subrange(0int, 32int) == region.subrange(32int * 0, 32int * 0 + 32));
        }
        let sub = region.skip(32);
        assert forall|k: int| 0 <= k < idx - 1 implies sub.len() >= 32 * (k + 1)
            && dec_method_slot(#[trigger] sub.subrange(32 * k, 32 * k + 32)) is Some by {
            assert(sub.subrange(32 * k, 32 * k + 32) =~= region.subrange(
                32 * (k + 1),
                32 * (k + 1) + 32,
            ));
        }
        if !short {
            assert(sub.subrange(32 * (idx - 1), 32 * (idx - 1) + 32) =~= region.subrange(
                32 * idx,
                32 * idx + 32,
            ));
        }
        lemma_slots_err_at(sub, n - 1, idx - 1, short);
    }
}


/// A failing parse reports one of three kinds; never the corruption or
/// permission kinds.
pub proof fn lemma_dec_info_err_kinds(s: Seq<u8>, v: PakVersion)
    ensures
        dec_info_err(s, v) == PakError::Eof || dec_info_err(s, v) == PakError::InvalidInput
            || dec_info_err(s, v) == PakError::Other,
{
    let gl: int = if v.spec_at_least(PakVersion::EncryptionKeyGuid) {
        16
    } else {
        0
    };
    let fl: int = if v.spec_at_least(PakVersion::FrozenIndex) {
        1
    } else {
        0
    };
    if s.len() >= gl + 45 + fl && v.spec_at_least(PakVersion::FNameBasedCompressionMethod422) {
        lemma_slots_err_kinds(s.skip(gl + 45 + fl), spec_num_slots(v));
    }
}

proof fn lemma_slots_err_kinds(t: Seq<u8>, n: int)
    ensures
        slots_err(t, n) == PakError::Eof || slots_err(t, n) == PakError::Other,
    decreases n,
{
    if n > 0 && t.len() >= 32 && dec_method_slot(t.subrange(0, 32)) is Some {
        lemma_slots_err_kinds(t.skip(32), n - 1);
    }
}

/// A well-formed trailer: every field representable at its version, and method
/// names that survive the NUL-padded table.
pub open spec fn info_wf(i: PakInfoV) -> bool {
    let v = i.version;
    &&& i.magic == PAK_FILE_MAGIC
    &&& i.hash.len() == 20
    &&& i.encryption_key_guid.len() == 4
    &&& (!v.spec_at_least(PakVersion::IndexEncryption) ==> !i.encrypted_index)
    &&& (!v.spec_at_least(PakVersion::EncryptionKeyGuid) ==> i.encryption_key_guid =~= seq![
        0u32,
        0u32,
        0u32,
        0u32,
    ])
    &&& (!v.spec_at_least(PakVersion::FrozenIndex) ==> !i.index_is_frozen)
    &&& (!v.spec_at_least(PakVersion::FNameBasedCompressionMethod422)
        ==> i.compression_methods =~= legacy_methods())
    &&& (v.spec_at_least(PakVersion::FNameBasedCompressionMethod422) ==> {
        &&& i.compression_methods.len() == spec_num_slots(v) + 1
        &&& i.compression_methods[0] =~= Seq::<char>::empty()
        &&& forall|j: int|
            1 <= j < i.compression_methods.len() ==> method_name_wf(#[trigger] i.compression_methods[j])
    })
}

/// A method name that round-trips through its 32-byte slot: ASCII, no NULs,
/// and at most 32 bytes.
pub open spec fn method_name_wf(name: Seq<char>) -> bool {
    &&& vstd::utf8::is_ascii_chars(name)
    &&& name.len() <= 32
    &&& forall|k: int| 0 <= k < name.len() ==> name[k] != '\0'
}

impl PakInfo {
    /// A fresh trailer for a version: magic set, everything else empty.
    pub fn new(version: PakVersion) -> (r: Self)
        ensures
            r@.version == version,
            r@.magic == PAK_FILE_MAGIC,
            r@.index_offset == 0,
            r@.index_size == 0,
            r@.encrypted_index == false,
            r@.index_is_frozen == false,
            r@.hash =~= Seq::new(20, |i: int| 0u8),
            r@.encryption_key_guid =~= seq![0u32, 0u32, 0u32, 0u32],
            r@.compression_methods =~= seq![Seq::<char>::empty()],
    {
        let mut methods: Vec<String> = Vec::new();
        methods.push(String::new());
        let r = PakInfo {
            magic: PAK_FILE_MAGIC,
            version,
            index_offset: 0,
            index_size: 0,
            hash: [0u8; 20],
            encrypted_index: false,
            index_is_frozen: false,
            encryption_key_guid: [0u32; 4],
            compression_methods: methods,
        };
        proof {
            assert(r@.hash =~= Seq::new(20, |i: int| 0u8));
            assert(r@.encryption_key_guid =~= seq![0u32, 0u32, 0u32, 0u32]);
            assert(r@.compression_methods =~= seq![Seq::<char>::empty()]);
        }
        r
    }

    /// The number of bytes of this trailer on the wire.
    pub fn ser_de_len(&self) -> (r: u64)
        ensures
            r == info_len(self@.version),
    {
        let guid: u64 = if self.version.at_least(PakVersion::EncryptionKeyGuid) {
            16
        } else {
            0
        };
        let frozen: u64 = if self.version.at_least(PakVersion::FrozenIndex) {
            1
        } else {
            0
        };
        let methods: u64 = if self.version.at_least(PakVersion::FNameBasedCompressionMethod422) {
            if self.version == PakVersion::FNameBasedCompressionMethod422 {
                128
            } else {
                160
            }
        } else {
            0
        };
        guid + 45 + frozen + methods
    }
}

/// Exec mirror of `spec_num_slots`.
pub fn num_slots(v: PakVersion) -> (r: usize)
    requires
        v.spec_at_least(PakVersion::FNameBasedCompressionMethod422),
    ensures
        r == spec_num_slots(v),
{
    if v == PakVersion::FNameBasedCompressionMethod422 {
        4
    } else {
        5
    }
}

/// Whether every method name used by the table fits its 32-byte slot.
pub open spec fn info_methods_fit(i: PakInfoV) -> bool {
    i.version.spec_at_least(PakVersion::FNameBasedCompressionMethod422) ==> forall|j: int|
        1 <= j < i.compression_methods.len() && j <= spec_num_slots(i.version) ==> str_bytes(
            #[trigger] i.compression_methods[j],
        ).len() <= 32
}

impl PakInfo {
    /// Writes the trailer. Fails with `InvalidInput` exactly when a stored
    /// method name does not fit its 32-byte slot; nothing is written then.
    #[verifier::rlimit(100)]
    #[verifier::spinoff_prover]
    pub fn ser(&self, w: &mut ArchiveWriter) -> (r: Result<(), PakError>)
        ensures
            match r {
                Ok(()) => info_methods_fit(self@) && final(w).data@ == old(w).data@ + enc_info(
                    self@,
                ),
                Err(e) => e == PakError::InvalidInput && !info_methods_fit(self@)
                    && final(w).data@ == old(w).data@,
            },
    {
        let v = self.version;
        if v.at_least(PakVersion::FNameBasedCompressionMethod422) {
            let nslots = num_slots(v);
            let mut j: usize = 1;
            while j < self.compression_methods.len() && j <= nslots
                invariant
                    1 <= j,
                    self@.version.spec_at_least(PakVersion::FNameBasedCompressionMethod422),
                    nslots == spec_num_slots(self@.version),
                    forall|k: int|
                        1 <= k < j as int && k <= nslots as int ==> str_bytes(
                            #[trigger] self@.compression_methods[k],
                        ).len() <= 32,
                decreases self.compression_methods@.len() - j,
            {
                if self.compression_methods[j].as_str().as_bytes().len() > 32 {
                    proof {
                        assert(self@.compression_methods[j as int] == self.compression_methods@[
                            j as int
                        ]@);
                        assert(str_bytes(self@.compression_methods[j as int]).len() > 32);
                        assert(!info_methods_fit(self@));
                    }
                    return Err(PakError::InvalidInput);
                }
                proof {
                    assert(self@.compression_methods[j as int] == self.compression_methods@[
                        j as int
                    ]@);
                }
                j = j + 1;
            }
        }
        let ghost b0 = w.data@;
        if v.at_least(PakVersion::EncryptionKeyGuid) {
            w.ser_u32(self.encryption_key_guid[0]);
            w.ser_u32(self.encryption_key_guid[1]);
            w.ser_u32(self.encryption_key_guid[2]);
            w.ser_u32(self.encryption_key_guid[3]);
        }
        w.ser_u8(if self.encrypted_index {
            1
        } else {
            0
        });
        w.ser_u32(self.magic);
        w.ser_i32(v.raw());
        w.ser_u64(self.index_offset);
        w.ser_u64(self.index_size);
        w.write_all(self.hash.as_slice());
        if v.at_least(PakVersion::FrozenIndex) {
            w.ser_u8(
                if self.index_is_frozen {
                    1
                } else {
                    0
                },
            );
        }
        let ghost b1 = w.data@;
        proof {
            assert(b1 =~= b0 + enc_info_head(self@));
        }
        if v.at_least(PakVersion::FNameBasedCompressionMethod422) {
            let nslots = num_slots(v);
            let mut idx: usize = 0;
            while idx < nslots
                invariant
                    idx <= nslots,
                    nslots == spec_num_slots(self@.version),
                    self@.version.spec_at_least(PakVersion::FNameBasedCompressionMethod422),
                    forall|k: int|
                        1 <= k < self@.compression_methods.len() && k <= nslots as int
                            ==> str_bytes(#[trigger] self@.compression_methods[k]).len() <= 32,
                    w.data@ =~= b1 + enc_methods(self@.compression_methods, idx as int),
                decreases nslots - idx,
            {
                let ghost before = w.data@;
                if idx + 1 < self.compression_methods.len() {
                    let name = &self.compression_methods[idx + 1];
                    proof {
                        assert(self@.compression_methods[idx + 1] == self.compression_methods@[
                            idx + 1
                        ]@);
                        assert(str_bytes(self@.compression_methods[idx + 1]).len() <= 32);
                    }
                    let bytes = name.as_str().as_bytes();
                    w.write_all(bytes);
                    let pad = 32 - bytes.len();
                    let zeros: Vec<u8> = zero_bytes(pad);
                    w.write_all(zeros.as_slice());
                    proof {
                        assert(w.data@ =~= before + method_slot(
                            self@.compression_methods,
                            idx as int,
                        ));
                    }
                } else {
                    let zeros: Vec<u8> = zero_bytes(32);
                    w.write_all(zeros.as_slice());
                    proof {
                        assert(method_slot(self@.compression_methods, idx as int) =~= Seq::new(
                            32,
                            |j: int| 0u8,
                        ));
                        assert(w.data@ =~= before + method_slot(
                            self@.compression_methods,
                            idx as int,
                        ));
                    }
                }
                proof {
                    assert(w.data@ =~= b1 + enc_methods(
                        self@.compression_methods,
                        idx as int + 1,
                    ));
                }
                idx = idx + 1;
            }
        }
        proof {
            assert(w.data@ =~= b0 + enc_info(self@));
        }
        Ok(())
    }

    /// Reads a trailer of the given version. `InvalidInput` exactly on a magic
    /// or raw-version mismatch; `Eof` when bytes run out; `Other` on a method
    /// name that is not UTF-8.
    #[verifier::rlimit(60)]
    #[verifier::spinoff_prover]
    pub fn de(r: &mut ArchiveReader, version: PakVersion) -> (res: Result<PakInfo, PakError>)
        requires
            old(r).wf(),
        ensures
            final(r).wf(),
            final(r).data@ == old(r).data@,
            match res {
                Ok(i) => dec_info(old(r).remaining(), version) == Some((i@, info_len(version)))
                    && final(r).pos == old(r).pos + info_len(version) && i@.version == version,
                Err(e) => dec_info(old(r).remaining(), version) is None && e == dec_info_err(
                    old(r).remaining(),
                    version,
                ),
            },
    {
        let ghost s = old(r).remaining();
        let ghost p0 = r.pos as int;
        let mut guid: [u32; 4] = [0u32; 4];
        let ghost gl: int = if version.spec_at_least(PakVersion::EncryptionKeyGuid) {
            16int
        } else {
            0int
        };
        if version.at_least(PakVersion::EncryptionKeyGuid) {
            let g0 = match r.de_u32() {
                Ok(x) => x,
                Err(e) => { return Err(e) },
            };
            proof {
                assert(r.remaining() =~= s.skip(4));
            }
            let g1 = match r.de_u32() {
                Ok(x) => x,
                Err(e) => { return Err(e) },
            };
            proof {
                assert(r.remaining() =~= s.skip(8));
            }
            let g2 = match r.de_u32() {
                Ok(x) => x,
                Err(e) => { return Err(e) },
            };
            proof {
                assert(r.remaining() =~= s.skip(12));
            }
            let g3 = match r.de_u32() {
                Ok(x) => x,
                Err(e) => { return Err(e) },
            };
            guid[0] = g0;
            guid[1] = g1;
            guid[2] = g2;
            guid[3] = g3;
        }
        proof {
            assert(r.remaining() =~= s.skip(gl));
        }
        let enc_byte = match r.de_u8() {
            Ok(x) => x,
            Err(e) => { return Err(e) },
        };
        proof {
            assert(r.remaining() =~= s.skip(gl + 1));
        }
        let magic = match r.de_u32() {
            Ok(x) => x,
            Err(e) => { return Err(e) },
        };
        if magic != PAK_FILE_MAGIC {
            return Err(PakError::InvalidInput);
        }
        proof {
            assert(r.remaining() =~= s.skip(gl + 5));
        }
        let raw = match r.de_i32() {
            Ok(x) => x,
            Err(e) => { return Err(e) },
        };
        if raw != version.raw() {
            return Err(PakError::InvalidInput);
        }
        proof {
            assert(r.remaining() =~= s.skip(gl + 9));
        }
        let index_offset = match r.de_u64() {
            Ok(x) => x,
            Err(e) => { return Err(e) },
        };
        proof {
            assert(r.remaining() =~= s.skip(gl + 17));
        }
        let index_size = match r.de_u64() {
            Ok(x) => x,
            Err(e) => { return Err(e) },
        };
        proof {
            assert(r.remaining() =~= s.skip(gl + 25));
        }
        let hash_vec = match r.read_exact(20) {
            Ok(v) => v,
            Err(e) => { return Err(e) },
        };
        let hash = vec_to_hash20(&hash_vec);
        proof {
            assert(hash@ =~= s.subrange(gl + 25, gl + 45));
            assert(r.remaining() =~= s.skip(gl + 45));
        }
        let mut frozen = false;
        if version.at_least(PakVersion::FrozenIndex) {
            let f = match r.de_u8() {
                Ok(x) => x,
                Err(e) => { return Err(e) },
            };
            frozen = f != 0;
        }
        let ghost fl: int = if version.spec_at_least(PakVersion::FrozenIndex) {
            1int
        } else {
            0int
        };
        proof {
            assert(r.remaining() =~= s.skip(gl + 45 + fl));
        }
        let mut methods: Vec<String> = Vec::new();
        methods.push(String::new());
        proof {
            assert(methods.deep_view() =~= seq![Seq::<char>::empty()]);
        }
        if version.at_least(PakVersion::FNameBasedCompressionMethod422) {
            let nslots = num_slots(version);
            let ghost region = s.skip(gl + 45 + fl);
            proof {
                assert((s.len() < info_len(version) || dec_methods(
                    region,
                    spec_num_slots(version),
                ) is None) ==> dec_info(s, version) is None);
            }
            let mut idx: usize = 0;
            while idx < nslots
                invariant
                    r.wf(),
                    r.data@ == old(r).data@,
                    idx <= nslots,
                    version.spec_at_least(PakVersion::FNameBasedCompressionMethod422),
                    nslots == spec_num_slots(version),
                    region == s.skip(gl + 45 + fl),
                    gl == (if version.spec_at_least(PakVersion::EncryptionKeyGuid) {
                        16int
                    } else {
                        0int
                    }),
                    fl == (if version.spec_at_least(PakVersion::FrozenIndex) {
                        1int
                    } else {
                        0int
                    }),
                    (s.len() < info_len(version) || dec_methods(
                        region,
                        spec_num_slots(version),
                    ) is None) ==> dec_info(s, version) is None,
                    dec_u32(s.skip(gl + 1)) is Some && dec_u32(s.skip(gl + 1))->Some_0.0
                        == PAK_FILE_MAGIC,
                    dec_i32(s.skip(gl + 5)) is Some && dec_i32(s.skip(gl + 5))->Some_0.0
                        == version.spec_raw(),
                    s.len() >= gl + 45 + fl,
                    0 <= p0,
                    p0 == old(r).pos as int,
                    p0 + gl + 45 + fl <= r.data@.len(),
                    s == old(r).data@.subrange(p0, old(r).data@.len() as int),
                    s == old(r).remaining(),
                    r.pos == p0 + gl + 45 + fl + 32 * idx,
                    dec_methods(region, idx as int) == Some(methods.deep_view()),
                decreases nslots - idx,
            {
                proof {
                    assert(r.remaining() =~= region.skip(32 * (idx as int)));
                }
                let slot = match r.read_exact(32) {
                    Ok(v) => v,
                    Err(e) => {
                        proof {
                            assert(region.len() < 32 * (idx as int) + 32);
                            assert(region.len() == s.len() - (gl + 45 + fl));
                            assert(info_len(version) == gl + 45 + fl + 32 * spec_num_slots(
                                version,
                            ));
                            assert(s.len() < info_len(version));
                            lemma_dec_methods_prefix_slots(region, idx as int);
                            lemma_slots_err_at(
                                region,
                                spec_num_slots(version),
                                idx as int,
                                true,
                            );
                            assert(dec_info_err(s, version) == PakError::Eof);
                        }
                        return Err(e)
                    },
                };
                proof {
                    assert(slot@ =~= region.subrange(32 * (idx as int), 32 * (idx as int) + 32));
                }
                let name = match de_one_slot(slot) {
                    Ok(n) => n,
                    Err(e) => {
                        proof {
                            lemma_dec_methods_slot_fail(region, nslots as int, idx as int);
                            assert(dec_info(s, version) is None);
                            lemma_dec_methods_prefix_slots(region, idx as int);
                            lemma_slots_err_at(
                                region,
                                spec_num_slots(version),
                                idx as int,
                                false,
                            );
                            assert(dec_info_err(s, version) == PakError::Other);
                        }
                        return Err(e)
                    },
                };
                let ghost before = methods.deep_view();
                methods.push(name);
                proof {
                    assert(methods.deep_view() =~= before.push(name@));
                }
                idx = idx + 1;
            }
        } else {
            methods.push(string_lit_zlib());
            methods.push(string_lit_gzip());
            methods.push(string_lit_oodle());
            proof {
                assert(methods.deep_view().len() == 4);
                assert(methods.deep_view()[0] == methods@[0]@);
                assert(methods.deep_view()[1] == methods@[1]@);
                assert(methods.deep_view()[2] == methods@[2]@);
                assert(methods.deep_view()[3] == methods@[3]@);
                assert(methods.deep_view() =~= legacy_methods());
            }
        }
        let info = PakInfo {
            magic,
            version,
            index_offset,
            index_size,
            hash,
            encrypted_index: if version.at_least(PakVersion::IndexEncryption) {
                enc_byte != 0
            } else {
                false
            },
            index_is_frozen: frozen,
            encryption_key_guid: guid,
            compression_methods: methods,
        };
        proof {
            if version.spec_at_least(PakVersion::EncryptionKeyGuid) {
                assert(info@.encryption_key_guid =~= seq![
                    dec_u32(s)->Some_0.0,
                    dec_u32(s.skip(4))->Some_0.0,
                    dec_u32(s.skip(8))->Some_0.0,
                    dec_u32(s.skip(12))->Some_0.0,
                ]);
            } else {
                assert(info@.encryption_key_guid =~= seq![0u32, 0u32, 0u32, 0u32]);
            }
            let parsed = dec_info(s, version)->Some_0;
            assert(info@ =~= parsed.0);
        }
        Ok(info)
    }
}

/// A vector of `n` zero bytes.
pub fn zero_bytes(n: usize) -> (r: Vec<u8>)
    ensures
        r@ =~= Seq::new(n as nat, |j: int| 0u8),
{
    let mut r: Vec<u8> = Vec::new();
    let mut i: usize = 0;
    while i < n
        invariant
            i <= n,
            r@ =~= Seq::new(i as nat, |j: int| 0u8),
        decreases n - i,
    {
        r.push(0);
        i = i + 1;
    }
    r
}

/// Trims the NUL padding of one 32-byte slot and decodes the name.
fn de_one_slot(slot: Vec<u8>) -> (res: Result<String, PakError>)
    ensures
        match res {
            Ok(n) => dec_method_slot(slot@) == Some(n@),
            Err(e) => dec_method_slot(slot@) is None && e == PakError::Other,
        },
{
    let mut b = slot;
    let ghost orig = b@;
    while b.len() > 0 && b[b.len() - 1] == 0
        invariant
            trim_zeros(b@) == trim_zeros(orig),
        decreases b@.len(),
    {
        proof {
            assert(trim_zeros(b@) == trim_zeros(b@.drop_last()));
        }
        let _ = b.pop();
    }
    proof {
        assert(trim_zeros(b@) == b@);
    }
    string_from_utf8(b)
}

/// Exec strings for the synthesized legacy method table.
fn string_lit_zlib() -> (r: String)
    ensures
        r@ == legacy_methods()[1],
{
    proof {
        reveal_strlit("Zlib");
    }
    String::from_str("Zlib")
}

fn string_lit_gzip() -> (r: String)
    ensures
        r@ == legacy_methods()[2],
{
    proof {
        reveal_strlit("Gzip");
    }
    String::from_str("Gzip")
}

fn string_lit_oodle() -> (r: String)
    ensures
        r@ == legacy_methods()[3],
{
    proof {
        reveal_strlit("Oodle");
    }
    String::from_str("Oodle")
}

/// If slot `bad` does not decode, no table of `n > bad` slots parses.
proof fn lemma_dec_methods_slot_fail(s: Seq<u8>, n: int, bad: int)
    requires
        0 <= bad < n,
        dec_method_slot(s.subrange(32 * bad, 32 * bad + 32)) is None,
    ensures
        dec_methods(s, n) is None,
    decreases n,
{
    if n - 1 > bad {
        lemma_dec_methods_slot_fail(s, n - 1, bad);
    }
}

/// Zero padding after a NUL-free tail is dropped by `trim_zeros`.
proof fn lemma_trim_zeros_pad(b: Seq<u8>, k: nat)
    requires
        b.len() == 0 || b[b.len() - 1] != 0,
    ensures
        trim_zeros(b + Seq::new(k, |j: int| 0u8)) == b,
    decreases k,
{
    if k == 0 {
        assert(b + Seq::new(0, |j: int| 0u8) =~= b);
        assert(trim_zeros(b) == b);
    } else {
        let whole = b + Seq::new(k, |j: int| 0u8);
        assert(whole[whole.len() - 1] == 0);
        assert(whole.drop_last() =~= b + Seq::new((k - 1) as nat, |j: int| 0u8));
        lemma_trim_zeros_pad(b, (k - 1) as nat);
    }
}

/// A well-formed name comes back out of its NUL-padded slot.
proof fn lemma_slot_round_trip(names: Seq<Seq<char>>, idx: int)
    requires
        idx >= 0,
        idx + 1 < names.len() ==> method_name_wf(names[idx + 1]),
    ensures
        dec_method_slot(method_slot(names, idx)) == Some(
            if idx + 1 < names.len() {
                names[idx + 1]
            } else {
                Seq::<char>::empty()
            },
        ),
        method_slot(names, idx).len() == 32,
{
    broadcast use vstd::utf8::char_is_scalar;

    if idx + 1 < names.len() {
        let name = names[idx + 1];
        let nb = str_bytes(name);
        vstd::utf8::is_ascii_chars_encode_utf8(name);
        assert(nb.len() == name.len());
        if name.len() > 0 {
            let last = name[name.len() - 1];
            assert(nb[nb.len() - 1] == last as u8);
            vstd::utf8::is_ascii_chars_nat_bound(name);
            let lu: u32 = last as u32;
            assert(lu < 128);
            assert(last as u8 != 0) by {
                if last as u8 == 0 {
                    assert(lu as u8 == last as u8);
                    assert(lu == 0) by (bit_vector)
                        requires
                            lu < 128,
                            lu as u8 == 0,
                    ;
                    vstd::utf8::char_u32_cast(last, lu);
                    let zc: char = '\0';
                    assert(zc as u32 == 0);
                    vstd::utf8::char_u32_cast(zc, 0);
                    assert(last == zc);
                    assert(false);
                }
            }
        }
        lemma_trim_zeros_pad(nb, (32 - nb.len()) as nat);
        vstd::utf8::encode_utf8_valid_utf8(name);
        vstd::utf8::encode_utf8_decode_utf8(name);
    } else {
        let e = Seq::<u8>::empty();
        lemma_trim_zeros_pad(e, 32);
        assert(method_slot(names, idx) =~= e + Seq::new(32, |j: int| 0u8));
        assert(trim_zeros(method_slot(names, idx)) == e);
        assert(vstd::utf8::valid_utf8(e));
        assert(vstd::utf8::decode_utf8(e) =~= Seq::<char>::empty());
    }
}

proof fn lemma_enc_methods_len(names: Seq<Seq<char>>, n: int)
    requires
        n >= 0,
        forall|j: int| 1 <= j < names.len() && j <= n ==> str_bytes(#[trigger] names[j]).len() <= 32,
    ensures
        enc_methods(names, n).len() == 32 * n,
    decreases n,
{
    if n > 0 {
        lemma_enc_methods_len(names, n - 1);
    }
}

proof fn lemma_enc_methods_index(names: Seq<Seq<char>>, n: int, j: int)
    requires
        0 <= j < n,
        forall|k: int| 1 <= k < names.len() && k <= n ==> str_bytes(#[trigger] names[k]).len() <= 32,
    ensures
        enc_methods(names, n).subrange(32 * j, 32 * j + 32) == method_slot(names, j),
    decreases n,
{
    lemma_enc_methods_len(names, n);
    lemma_enc_methods_len(names, n - 1);
    if j == n - 1 {
        assert(enc_methods(names, n).subrange(32 * j, 32 * j + 32) =~= method_slot(names, j));
    } else {
        lemma_enc_methods_index(names, n - 1, j);
        assert(enc_methods(names, n).subrange(32 * j, 32 * j + 32) =~= enc_methods(
            names,
            n - 1,
        ).subrange(32 * j, 32 * j + 32));
    }
}

/// The decoded logical table over the first `k` slots of `s`.
spec fn expected_methods(names: Seq<Seq<char>>, k: int) -> Seq<Seq<char>> {
    seq![Seq::<char>::empty()] + Seq::new(
        k as nat,
        |i: int|
            if i + 1 < names.len() {
                names[i + 1]
            } else {
                Seq::<char>::empty()
            },
    )
}

proof fn lemma_dec_methods_prefix(names: Seq<Seq<char>>, k: int, s: Seq<u8>)
    requires
        k >= 0,
        s.len() >= 32 * k,
        forall|j: int|
            0 <= j < k ==> s.subrange(32 * j, 32 * j + 32) == method_slot(names, j),
        forall|j: int| 1 <= j < names.len() && j <= k ==> method_name_wf(#[trigger] names[j]),
    ensures
        dec_methods(s, k) == Some(expected_methods(names, k)),
    decreases k,
{
    if k == 0 {
        assert(expected_methods(names, 0) =~= seq![Seq::<char>::empty()]);
    } else {
        lemma_dec_methods_prefix(names, k - 1, s);
        lemma_slot_round_trip(names, k - 1);
        assert(expected_methods(names, k) =~= expected_methods(names, k - 1).push(
            if k < names.len() {
                names[k]
            } else {
                Seq::<char>::empty()
            },
        ));
    }
}

/// Field-level parse facts for the fixed head of an encoded trailer.
#[verifier::rlimit(100)]
#[verifier::spinoff_prover]
proof fn lemma_dec_info_head(i: PakInfoV, tail: Seq<u8>)
    requires
        i.hash.len() == 20,
        i.encryption_key_guid.len() == 4,
    ensures
        ({
            let v = i.version;
            let s = enc_info_head(i) + tail;
            let gl: int = if v.spec_at_least(PakVersion::EncryptionKeyGuid) {
                16
            } else {
                0
            };
            let fl: int = if v.spec_at_least(PakVersion::FrozenIndex) {
                1
            } else {
                0
            };
            &&& enc_info_head(i).len() == gl + 45 + fl
            &&& (v.spec_at_least(PakVersion::EncryptionKeyGuid) ==> {
                &&& dec_u32(s) == Some((i.encryption_key_guid[0], 4int))
                &&& dec_u32(s.skip(4)) == Some((i.encryption_key_guid[1], 4int))
                &&& dec_u32(s.skip(8)) == Some((i.encryption_key_guid[2], 4int))
                &&& dec_u32(s.skip(12)) == Some((i.encryption_key_guid[3], 4int))
            })
            &&& dec_u8(s.skip(gl)) == Some(
                (
                    if i.encrypted_index {
                        1u8
                    } else {
                        0u8
                    },
                    1int,
                ),
            )
            &&& dec_u32(s.skip(gl + 1)) == Some((i.magic, 4int))
            &&& dec_i32(s.skip(gl + 5)) == Some((v.spec_raw(), 4int))
            &&& dec_u64(s.skip(gl + 9)) == Some((i.index_offset, 8int))
            &&& dec_u64(s.skip(gl + 17)) == Some((i.index_size, 8int))
            &&& s.subrange(gl + 25, gl + 45) == i.hash
            &&& (v.spec_at_least(PakVersion::FrozenIndex) ==> dec_u8(s.skip(gl + 45)) == Some(
                (
                    if i.index_is_frozen {
                        1u8
                    } else {
                        0u8
                    },
                    1int,
                ),
            ))
            &&& s.skip(gl + 45 + fl) == tail
        }),
{
    vstd::bytes::lemma_auto_spec_u32_to_from_le_bytes();
    vstd::bytes::lemma_auto_spec_u64_to_from_le_bytes();
    let v = i.version;
    let g = i.encryption_key_guid;
    let s = enc_info_head(i) + tail;
    let gl: int = if v.spec_at_least(PakVersion::EncryptionKeyGuid) {
        16
    } else {
        0
    };
    let eb: Seq<u8> = enc_u8(
        if i.encrypted_index {
            1
        } else {
            0
        },
    );
    let fz: Seq<u8> = if v.spec_at_least(PakVersion::FrozenIndex) {
        enc_u8(
            if i.index_is_frozen {
                1
            } else {
                0
            },
        )
    } else {
        Seq::<u8>::empty()
    };
    let tail1 = eb + enc_u32(i.magic) + enc_i32(v.spec_raw()) + enc_u64(i.index_offset) + enc_u64(
        i.index_size,
    ) + i.hash + fz + tail;
    if v.spec_at_least(PakVersion::EncryptionKeyGuid) {
        lemma_dec_u32(g[0], enc_u32(g[1]) + enc_u32(g[2]) + enc_u32(g[3]) + tail1);
        assert(s =~= enc_u32(g[0]) + (enc_u32(g[1]) + enc_u32(g[2]) + enc_u32(g[3]) + tail1));
        lemma_dec_u32(g[1], enc_u32(g[2]) + enc_u32(g[3]) + tail1);
        assert(s.skip(4) =~= enc_u32(g[1]) + (enc_u32(g[2]) + enc_u32(g[3]) + tail1));
        lemma_dec_u32(g[2], enc_u32(g[3]) + tail1);
        assert(s.skip(8) =~= enc_u32(g[2]) + (enc_u32(g[3]) + tail1));
        lemma_dec_u32(g[3], tail1);
        assert(s.skip(12) =~= enc_u32(g[3]) + tail1);
    }
    lemma_dec_u8(
        if i.encrypted_index {
            1
        } else {
            0
        },
        enc_u32(i.magic) + enc_i32(v.spec_raw()) + enc_u64(i.index_offset) + enc_u64(i.index_size)
            + i.hash + fz + tail,
    );
    assert(s.skip(gl) =~= eb + (enc_u32(i.magic) + enc_i32(v.spec_raw()) + enc_u64(i.index_offset)
        + enc_u64(i.index_size) + i.hash + fz + tail));
    lemma_dec_u32(i.magic, enc_i32(v.spec_raw()) + enc_u64(i.index_offset) + enc_u64(i.index_size)
        + i.hash + fz + tail);
    assert(s.skip(gl + 1) =~= enc_u32(i.magic) + (enc_i32(v.spec_raw()) + enc_u64(i.index_offset)
        + enc_u64(i.index_size) + i.hash + fz + tail));
    lemma_dec_i32(v.spec_raw(), enc_u64(i.index_offset) + enc_u64(i.index_size) + i.hash + fz
        + tail);
    assert(s.skip(gl + 5) =~= enc_i32(v.spec_raw()) + (enc_u64(i.index_offset) + enc_u64(
        i.index_size,
    ) + i.hash + fz + tail));
    lemma_dec_u64(i.index_offset, enc_u64(i.index_size) + i.hash + fz + tail);
    assert(s.skip(gl + 9) =~= enc_u64(i.index_offset) + (enc_u64(i.index_size) + i.hash + fz
        + tail));
    lemma_dec_u64(i.index_size, i.hash + fz + tail);
    assert(s.skip(gl + 17) =~= enc_u64(i.index_size) + (i.hash + fz + tail));
    assert(s.subrange(gl + 25, gl + 45) =~= i.hash);
    if v.spec_at_least(PakVersion::FrozenIndex) {
        lemma_dec_u8(
            if i.index_is_frozen {
                1
            } else {
                0
            },
            tail,
        );
        assert(s.skip(gl + 45) =~= fz + tail);
        assert(s.skip(gl + 46) =~= tail);
    } else {
        assert(s.skip(gl + 45) =~= tail);
    }
}

/// Parsing a trailer inverts encoding it, for any trailing bytes.
#[verifier::rlimit(100)]
#[verifier::spinoff_prover]
pub proof fn lemma_dec_enc_info(i: PakInfoV, rest: Seq<u8>)
    requires
        info_wf(i),
    ensures
        dec_info(enc_info(i) + rest, i.version) == Some((i, info_len(i.version))),
{
    let v = i.version;
    let nslots = spec_num_slots(v);
    let mt: Seq<u8> = if v.spec_at_least(PakVersion::FNameBasedCompressionMethod422) {
        enc_methods(i.compression_methods, nslots)
    } else {
        Seq::<u8>::empty()
    };
    if v.spec_at_least(PakVersion::FNameBasedCompressionMethod422) {
        assert forall|j: int|
            1 <= j < i.compression_methods.len() && j <= nslots implies str_bytes(
            #[trigger] i.compression_methods[j],
        ).len() <= 32 by {
            vstd::utf8::is_ascii_chars_encode_utf8(i.compression_methods[j]);
        }
        lemma_enc_methods_len(i.compression_methods, nslots);
    }
    lemma_dec_info_head(i, mt + rest);
    let s = enc_info(i) + rest;
    assert(s =~= enc_info_head(i) + (mt + rest));
    let gl: int = if v.spec_at_least(PakVersion::EncryptionKeyGuid) {
        16
    } else {
        0
    };
    let fl: int = if v.spec_at_least(PakVersion::FrozenIndex) {
        1
    } else {
        0
    };
    assert(s.len() >= info_len(v));
    if v.spec_at_least(PakVersion::FNameBasedCompressionMethod422) {
        let region = s.skip(gl + 45 + fl);
        assert(region == mt + rest);
        assert forall|j: int| 0 <= j < nslots implies region.subrange(32 * j, 32 * j + 32)
            == method_slot(i.compression_methods, j) by {
            lemma_enc_methods_index(i.compression_methods, nslots, j);
            assert(region.subrange(32 * j, 32 * j + 32) =~= enc_methods(
                i.compression_methods,
                nslots,
            ).subrange(32 * j, 32 * j + 32));
        }
        lemma_dec_methods_prefix(i.compression_methods, nslots, region);
        assert(expected_methods(i.compression_methods, nslots) =~= i.compression_methods);
    }
    let parsed = dec_info(s, v)->Some_0;
    assert(parsed.0 =~= i);
    assert(parsed.1 == info_len(v));
}

} // verus!
